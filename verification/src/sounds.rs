//! Pulling a mod's audio out: what becomes of each sound file, and under which
//! name.
//!
//! Plain files are encoded where there is an encoder, and copied where there is
//! none. A bank is a container of samples; it is decoded where there is a
//! decoder, and set aside where there is none.

use crate::naming::{safe, safe_name};
use crate::scene::{add_capped, capped};
use crate::text::{
    after_prefix, cat, cat3, chars_of, contains_text, decimal, dedup, halves, last_of, lower, lowered, opt_text,
    ordered, replace, rfind_char, rhalves, rsplit_once, same_str, sort, split_once, string_of,
    strip_prefix, texts, trim_suffixes, unrepeated, with_for, without_suffixes, write_usize,
};
use crate::tree::{base_of, base_text, stem_before, stem_of};
use vstd::prelude::*;

verus! {

/// Whether files with an extension hold sound.
pub open spec fn is_audio(ext: Option<Seq<char>>) -> bool {
    match ext {
        Some(e) => lowered(e) == "ogg"@ || lowered(e) == "wav"@ || lowered(e) == "mp3"@ || lowered(e)
            == "bank"@,
        None => false,
    }
}

pub fn holds_audio(ext: Option<&str>) -> (r: bool)
    ensures
        r == is_audio(crate::text::opt_str(ext)),
{
    match ext {
        Some(e) => {
            let c = chars_of(e);
            let l = lower(c.as_slice());
            crate::text::equals(l.as_slice(), "ogg") || crate::text::equals(l.as_slice(), "wav")
                || crate::text::equals(l.as_slice(), "mp3") || crate::text::equals(
                l.as_slice(),
                "bank",
            )
        },
        None => false,
    }
}

/// An extension, in lower case; empty where there is none.
pub open spec fn kind(ext: Option<Seq<char>>) -> Seq<char> {
    match ext {
        Some(e) => lowered(e),
        None => Seq::empty(),
    }
}

fn kind_of(ext: Option<&str>) -> (r: Vec<char>)
    ensures
        r@ == kind(crate::text::opt_str(ext)),
{
    match ext {
        Some(e) => {
            let c = chars_of(e);
            lower(c.as_slice())
        },
        None => {
            let r: Vec<char> = Vec::new();
            assert(r@ =~= Seq::<char>::empty());
            r
        },
    }
}

/// The folders of a path run together, so that files of one name in two folders
/// do not collide.
pub open spec fn flat(rel: Seq<char>) -> Seq<char> {
    with_for(rel, '/', '\\', '_')
}

pub fn flat_name(rel: &str) -> (r: String)
    ensures
        r@ == flat(rel@),
{
    let c = chars_of(rel);
    string_of(replace(c.as_slice(), '/', '\\', '_').as_slice())
}

/// A file's own place in the mod, kept as folders. The leading `sound/` carries
/// no information once everything is audio, so it goes.
pub open spec fn in_tree(rel: Seq<char>) -> Seq<char> {
    let s = with_for(rel, '\\', '\\', '/');
    match after_prefix(s, "sound/"@) {
        Some(t) => t,
        None => s,
    }
}

pub fn tree_path(rel: &str) -> (r: String)
    ensures
        r@ == in_tree(rel@),
{
    let c = chars_of(rel);
    let s = replace(c.as_slice(), '\\', '\\', '/');
    match strip_prefix(s.as_slice(), "sound/") {
        Some(t) => string_of(t),
        None => string_of(s.as_slice()),
    }
}

/// A file's name without its extension: what stands before the last dot, unless
/// that leads the name.
pub open spec fn without_extension(name: Seq<char>) -> Seq<char> {
    match last_of(name, '.') {
        Some(i) => if i > 0 {
            name.take(i)
        } else {
            name
        },
        None => name,
    }
}

/// A path without the extension of its last name.
pub open spec fn stem_path(p: Seq<char>) -> Seq<char> {
    match rhalves(p, '/') {
        Some(h) => h.0 + "/"@ + without_extension(h.1),
        None => without_extension(p),
    }
}

fn drop_extension(name: &[char]) -> (r: String)
    ensures
        r@ == without_extension(name@),
{
    match rfind_char(name, '.') {
        Some(i) => if i > 0 {
            proof {
                crate::text::lemma_last_of(name@, '.');
            }
            let t = vstd::slice::slice_subrange(name, 0, i);
            assert(t@ =~= name@.take(i as int));
            string_of(t)
        } else {
            string_of(name)
        },
        None => string_of(name),
    }
}

fn path_stem(p: &str) -> (r: String)
    ensures
        r@ == stem_path(p@),
{
    let c = chars_of(p);
    match rsplit_once(c.as_slice(), '/') {
        Some(h) => cat3(string_of(h.0).as_str(), "/", drop_extension(h.1).as_str()),
        None => drop_extension(c.as_slice()),
    }
}

// ---------------------------------------------------------------- tasks ---

/// What is to be done with a sound file. The paths are below the folder that the
/// sounds go to.
pub enum Task {
    /// set a bank aside
    Keep { to: String },
    /// decode a bank into a folder of its samples; where that gives none, copy it,
    /// if there is a place for that
    Decode { to: String, instead: Option<String> },
    Copy { to: String },
    /// encode it; where that fails, copy it
    Encode { to: String, instead: String },
}

#[verifier::ext_equal]
pub enum TaskView {
    Keep { to: Seq<char> },
    Decode { to: Seq<char>, instead: Option<Seq<char>> },
    Copy { to: Seq<char> },
    Encode { to: Seq<char>, instead: Seq<char> },
}

impl View for Task {
    type V = TaskView;

    open spec fn view(&self) -> TaskView {
        match self {
            Task::Keep { to } => TaskView::Keep { to: to@ },
            Task::Decode { to, instead } => TaskView::Decode {
                to: to@,
                instead: opt_text(*instead),
            },
            Task::Copy { to } => TaskView::Copy { to: to@ },
            Task::Encode { to, instead } => TaskView::Encode { to: to@, instead: instead@ },
        }
    }
}

/// The task for a file where all sounds go to one folder. A bank becomes a folder
/// of its samples there; where nothing can decode it, it is copied through rather
/// than dropped.
pub open spec fn flat_task(
    rel: Seq<char>,
    ext: Option<Seq<char>>,
    encoder: bool,
    decoder: bool,
) -> TaskView {
    let base = flat(rel);
    let e = kind(ext);
    if e == "bank"@ {
        if decoder {
            TaskView::Decode { to: without_extension(base), instead: Some(base) }
        } else {
            TaskView::Keep { to: base }
        }
    } else if !encoder || e == "mp3"@ {
        TaskView::Copy { to: base }
    } else {
        TaskView::Encode {
            to: without_suffixes(base, "."@ + e) + ".mp3"@,
            instead: base,
        }
    }
}

pub fn plan_flat(rel: &str, ext: Option<&str>, encoder: bool, decoder: bool) -> (r: Task)
    ensures
        r@ == flat_task(rel@, crate::text::opt_str(ext), encoder, decoder),
{
    let base = flat_name(rel);
    let e = kind_of(ext);
    if crate::text::equals(e.as_slice(), "bank") {
        if decoder {
            let c = chars_of(base.as_str());
            Task::Decode { to: drop_extension(c.as_slice()), instead: Some(base) }
        } else {
            Task::Keep { to: base }
        }
    } else if !encoder || crate::text::equals(e.as_slice(), "mp3") {
        Task::Copy { to: base }
    } else {
        let c = chars_of(base.as_str());
        let dot = cat(".", string_of(e.as_slice()).as_str());
        let stem = string_of(trim_suffixes(c.as_slice(), dot.as_str()));
        Task::Encode { to: cat(stem.as_str(), ".mp3"), instead: base }
    }
}

/// The task for a file where sounds keep their folders. A bank becomes a folder
/// of its samples, named after it, where it was.
pub open spec fn tree_task(
    rel: Seq<char>,
    ext: Option<Seq<char>>,
    encoder: bool,
    decoder: bool,
) -> TaskView {
    let p = in_tree(rel);
    let e = kind(ext);
    if e == "bank"@ {
        if decoder {
            TaskView::Decode { to: stem_path(p), instead: None }
        } else {
            TaskView::Keep { to: "_fmod_banks/"@ + base_of(p) }
        }
    } else if !encoder || e == "mp3"@ {
        TaskView::Copy { to: p }
    } else {
        TaskView::Encode { to: stem_path(p) + ".mp3"@, instead: p }
    }
}

pub fn plan_tree(rel: &str, ext: Option<&str>, encoder: bool, decoder: bool) -> (r: Task)
    ensures
        r@ == tree_task(rel@, crate::text::opt_str(ext), encoder, decoder),
{
    let p = tree_path(rel);
    let e = kind_of(ext);
    if crate::text::equals(e.as_slice(), "bank") {
        if decoder {
            Task::Decode { to: path_stem(p.as_str()), instead: None }
        } else {
            Task::Keep { to: cat("_fmod_banks/", base_text(p.as_str()).as_str()) }
        }
    } else if !encoder || crate::text::equals(e.as_slice(), "mp3") {
        Task::Copy { to: p }
    } else {
        Task::Encode { to: cat(path_stem(p.as_str()).as_str(), ".mp3"), instead: p }
    }
}

/// An encode that fails does not lose the sample: the copy goes where the file
/// would have gone without an encoder.
pub proof fn a_failed_encode_is_a_copy(rel: Seq<char>, ext: Option<Seq<char>>, decoder: bool)
    ensures
        flat_task(rel, ext, true, decoder) matches TaskView::Encode { to, instead } ==> flat_task(
            rel,
            ext,
            false,
            decoder,
        ) == (TaskView::Copy { to: instead }),
        tree_task(rel, ext, true, decoder) matches TaskView::Encode { to, instead } ==> tree_task(
            rel,
            ext,
            false,
            decoder,
        ) == (TaskView::Copy { to: instead }),
{
}

/// A bank is set aside undecoded only where there is no decoder.
pub proof fn banks_are_decoded_where_they_can_be(
    rel: Seq<char>,
    ext: Option<Seq<char>>,
    encoder: bool,
    decoder: bool,
)
    requires
        kind(ext) == "bank"@,
    ensures
        flat_task(rel, ext, encoder, decoder) is Decode <==> decoder,
        flat_task(rel, ext, encoder, decoder) is Keep <==> !decoder,
        tree_task(rel, ext, encoder, decoder) is Decode <==> decoder,
        tree_task(rel, ext, encoder, decoder) is Keep <==> !decoder,
{
}

/// Where a file is to be copied after all, once its task was tried: whether it was
/// encoded, and how many samples it gave.
pub open spec fn rescue(t: TaskView, encoded: bool, samples: usize) -> Option<Seq<char>> {
    match t {
        TaskView::Encode { to, instead } => if encoded {
            None
        } else {
            Some(instead)
        },
        TaskView::Decode { to, instead } => if samples == 0 {
            instead
        } else {
            None
        },
        _ => None,
    }
}

pub fn copy_instead(t: &Task, encoded: bool, samples: usize) -> (r: Option<String>)
    ensures
        opt_text(r) == rescue(t@, encoded, samples),
{
    match t {
        Task::Encode { to: _, instead } => if encoded {
            None
        } else {
            Some(instead.as_str().to_owned())
        },
        Task::Decode { to: _, instead } => if samples == 0 {
            match instead {
                Some(s) => Some(s.as_str().to_owned()),
                None => None,
            }
        } else {
            None
        },
        _ => None,
    }
}

/// Where all sounds go to one folder, a bank that gives no samples is copied there
/// under its own name, whether there is a decoder or not.
pub proof fn no_bank_is_dropped(rel: Seq<char>, ext: Option<Seq<char>>, encoder: bool)
    requires
        kind(ext) == "bank"@,
    ensures
        rescue(flat_task(rel, ext, encoder, true), false, 0) == Some(flat(rel)),
        flat_task(rel, ext, encoder, false) == (TaskView::Keep { to: flat(rel) }),
{
}

// --------------------------------------------------------------- report ---

/// What came of the sounds of one mod.
#[derive(Clone, Copy, PartialEq, Eq, Structural)]
pub struct Report {
    pub converted: usize,
    pub copied: usize,
    pub banks: usize,
    /// samples decoded out of banks
    pub bank_samples: usize,
}

/// The count with one file more: whether it was encoded, and how many samples it
/// gave.
pub open spec fn counted(r: Report, t: TaskView, encoded: bool, samples: usize) -> Report {
    match t {
        TaskView::Keep { to } => Report { banks: capped(r.banks + 1), ..r },
        TaskView::Decode { to, instead } => Report {
            banks: capped(r.banks + 1),
            bank_samples: capped(r.bank_samples + samples),
            ..r
        },
        TaskView::Copy { to } => Report { copied: capped(r.copied + 1), ..r },
        TaskView::Encode { to, instead } => if encoded {
            Report { converted: capped(r.converted + 1), ..r }
        } else {
            Report { copied: capped(r.copied + 1), ..r }
        },
    }
}

impl Report {
    pub fn new() -> (r: Report)
        ensures
            r == (Report { converted: 0, copied: 0, banks: 0, bank_samples: 0 }),
    {
        Report { converted: 0, copied: 0, banks: 0, bank_samples: 0 }
    }

    pub fn count(&mut self, t: &Task, encoded: bool, samples: usize)
        ensures
            *final(self) == counted(*old(self), t@, encoded, samples),
    {
        match t {
            Task::Keep { .. } => {
                self.banks = add_capped(self.banks, 1);
            },
            Task::Decode { .. } => {
                self.banks = add_capped(self.banks, 1);
                self.bank_samples = add_capped(self.bank_samples, samples);
            },
            Task::Copy { .. } => {
                self.copied = add_capped(self.copied, 1);
            },
            Task::Encode { .. } => {
                if encoded {
                    self.converted = add_capped(self.converted, 1);
                } else {
                    self.copied = add_capped(self.copied, 1);
                }
            },
        }
    }
}

// ---------------------------------------------------------------- banks ---

/// The sample that a decoded file holds: its name stands behind the number of
/// the sample.
pub open spec fn sample_of(file: Seq<char>) -> Option<Seq<char>> {
    match stem_before(file, "wav"@) {
        None => None,
        Some(stem) => match halves(stem, '_') {
            Some(h) => Some(h.1),
            None => Some(stem),
        },
    }
}

fn find_sample(file: &str) -> (r: Option<String>)
    ensures
        opt_text(r) == sample_of(file@),
{
    match stem_of(file, "wav") {
        None => None,
        Some(stem) => {
            let c = chars_of(stem.as_str());
            match split_once(c.as_slice(), '_') {
                Some(h) => Some(string_of(h.1)),
                None => Some(stem),
            }
        },
    }
}

/// The names of the samples that some files hold, as they come.
pub open spec fn sample_names(files: Seq<Seq<char>>) -> Seq<Seq<char>>
    decreases files.len(),
{
    if files.len() == 0 {
        Seq::empty()
    } else {
        let r = sample_names(files.drop_last());
        match sample_of(files.last()) {
            Some(n) => r.push(n),
            None => r,
        }
    }
}

/// The files that hold the sample with a name.
pub open spec fn files_of(files: Seq<Seq<char>>, name: Seq<char>) -> Seq<Seq<char>>
    decreases files.len(),
{
    if files.len() == 0 {
        Seq::empty()
    } else {
        let r = files_of(files.drop_last(), name);
        if sample_of(files.last()) == Some(name) {
            r.push(files.last())
        } else {
            r
        }
    }
}

/// What the `i`-th of `n` samples of one name is called. A repeated name gets a
/// number behind it: the same sound exists as an interior and an exterior version
/// and both carry one name.
pub open spec fn numbered_name(name: Seq<char>, i: nat, n: nat) -> Seq<char> {
    if n > 1 {
        name + "_"@ + decimal(i + 1)
    } else {
        name
    }
}

/// A decoded file, and the name it goes out under.
#[verifier::ext_equal]
pub struct SampleView {
    pub file: Seq<char>,
    pub out: Seq<char>,
}

pub open spec fn samples_named(name: Seq<char>, files: Seq<Seq<char>>) -> Seq<SampleView> {
    Seq::new(
        files.len(),
        |i: int|
            SampleView {
                file: files[i],
                out: safe(numbered_name(name, i as nat, files.len())),
            },
    )
}

/// The samples with the names `names`, each name's files in order.
pub open spec fn samples_for(files: Seq<Seq<char>>, names: Seq<Seq<char>>) -> Seq<SampleView>
    decreases names.len(),
{
    if names.len() == 0 {
        Seq::empty()
    } else {
        samples_for(files, names.drop_last()) + samples_named(
            names.last(),
            ordered(files_of(files, names.last())),
        )
    }
}

/// `base` with the number `k` behind it, if that is not zero.
pub open spec fn tagged(base: Seq<char>, k: nat) -> Seq<char> {
    if k == 0 {
        base
    } else {
        base + "_"@ + decimal(k)
    }
}

/// `base` with the first number from `k` on behind it that makes it none of `taken`.
pub open spec fn fresh(base: Seq<char>, taken: Seq<Seq<char>>, k: nat) -> Seq<char>
    decreases taken.len(),
{
    let name = tagged(base, k);
    if taken.contains(name) {
        fresh(base, taken.remove(taken.index_of(name)), k + 1)
    } else {
        name
    }
}

/// The names that samples go out under.
pub open spec fn outs(v: Seq<SampleView>) -> Seq<Seq<char>> {
    Seq::new(v.len(), |i: int| v[i].out)
}

/// Samples with names that are all different: one whose name is taken gets a
/// number behind it.
pub open spec fn told_apart(v: Seq<SampleView>) -> Seq<SampleView>
    decreases v.len(),
{
    if v.len() == 0 {
        Seq::empty()
    } else {
        let r = told_apart(v.drop_last());
        r.push(SampleView { file: v.last().file, out: fresh(v.last().out, outs(r), 0) })
    }
}

/// All the samples of a bank, by name.
pub open spec fn samples_in(files: Seq<Seq<char>>) -> Seq<SampleView> {
    told_apart(samples_for(files, unrepeated(ordered(sample_names(files)))))
}

pub struct Sample {
    pub file: String,
    pub out: String,
}

impl View for Sample {
    type V = SampleView;

    open spec fn view(&self) -> SampleView {
        SampleView { file: self.file@, out: self.out@ }
    }
}

pub open spec fn sample_views(v: Seq<Sample>) -> Seq<SampleView> {
    Seq::new(v.len(), |i: int| v[i]@)
}

fn list_names(files: &Vec<String>) -> (r: Vec<String>)
    ensures
        texts(r@) == sample_names(texts(files@)),
{
    let ghost all = texts(files@);
    let mut r: Vec<String> = Vec::new();
    let mut i: usize = 0;
    assert(all.take(0) =~= Seq::<Seq<char>>::empty());
    assert(texts(r@) =~= Seq::<Seq<char>>::empty());
    while i < files.len()
        invariant
            i <= files@.len(),
            all == texts(files@),
            texts(r@) == sample_names(all.take(i as int)),
        decreases files@.len() - i,
    {
        assert(all.take(i + 1).drop_last() =~= all.take(i as int));
        let ghost before = texts(r@);
        match find_sample(files[i].as_str()) {
            Some(n) => {
                let ghost nv = n@;
                r.push(n);
                assert(texts(r@) =~= before.push(nv));
            },
            None => {},
        }
        i = i + 1;
    }
    assert(all.take(i as int) =~= all);
    r
}

fn list_files(files: &Vec<String>, name: &str) -> (r: Vec<String>)
    ensures
        texts(r@) == files_of(texts(files@), name@),
{
    let ghost all = texts(files@);
    let mut r: Vec<String> = Vec::new();
    let mut i: usize = 0;
    assert(all.take(0) =~= Seq::<Seq<char>>::empty());
    assert(texts(r@) =~= Seq::<Seq<char>>::empty());
    while i < files.len()
        invariant
            i <= files@.len(),
            all == texts(files@),
            texts(r@) == files_of(all.take(i as int), name@),
        decreases files@.len() - i,
    {
        assert(all.take(i + 1).drop_last() =~= all.take(i as int));
        let ghost before = texts(r@);
        match find_sample(files[i].as_str()) {
            Some(n) => {
                if same_str(n.as_str(), name) {
                    r.push(files[i].as_str().to_owned());
                    assert(texts(r@) =~= before.push(files@[i as int]@));
                }
            },
            None => {},
        }
        i = i + 1;
    }
    assert(all.take(i as int) =~= all);
    r
}

fn make_fresh(base: &str, taken: &Vec<String>) -> (r: String)
    ensures
        r@ == fresh(base@, texts(taken@), 0),
{
    let ghost all = texts(taken@);
    let ghost mut rest = all;
    let mut k: usize = 0;
    let mut name = base.to_owned();
    let n: usize = taken.len();
    while contains_text(taken, name.as_str())
        invariant
            all == texts(taken@),
            n == all.len(),
            name@ == tagged(base@, k as nat),
            rest.len() + k == n,
            fresh(base@, rest, k as nat) == fresh(base@, all, 0),
            forall|x: Seq<char>| #[trigger] rest.contains(x) ==> all.contains(x),
            forall|j: nat|
                j >= k && all.contains(#[trigger] tagged(base@, j)) ==> rest.contains(
                    tagged(base@, j),
                ),
        decreases rest.len(),
    {
        proof {
            let i = rest.index_of(name@);
            let less = rest.remove(i);
            assert forall|x: Seq<char>| #[trigger] less.contains(x) implies all.contains(x) by {
                let j = less.index_of(x);
                assert(rest[if j < i { j } else { j + 1 }] == x);
                assert(rest.contains(x));
            }
            assert forall|j: nat|
                j >= k + 1 && all.contains(#[trigger] tagged(base@, j)) implies less.contains(
                tagged(base@, j),
            ) by {
                lemma_tags_differ(base@, k as nat, j);
                lemma_removed(rest, name@, tagged(base@, j));
            }
            rest = less;
        }
        k = k + 1;
        name = cat3(base, "_", write_usize(k).as_str());
    }
    name
}

proof fn lemma_removed(s: Seq<Seq<char>>, x: Seq<char>, y: Seq<char>)
    requires
        s.contains(x),
        s.contains(y),
        x != y,
    ensures
        s.remove(s.index_of(x)).contains(y),
{
    let i = s.index_of(x);
    let j = s.index_of(y);
    assert(s.remove(i)[if j < i { j } else { j - 1 }] == y);
}

proof fn lemma_tags_differ(base: Seq<char>, i: nat, j: nat)
    requires
        i < j,
    ensures
        tagged(base, i) != tagged(base, j),
{
    let k = (base + "_"@).len() as int;
    assert(tagged(base, j).skip(k) =~= decimal(j));
    if i > 0 {
        lemma_decimal_differs(i, j);
        assert(tagged(base, i).skip(k) =~= decimal(i));
    } else {
        reveal_strlit("_");
        assert(tagged(base, i).len() < tagged(base, j).len());
    }
}

proof fn lemma_fresh(base: Seq<char>, taken: Seq<Seq<char>>, k: nat) -> (j: nat)
    ensures
        j >= k,
        fresh(base, taken, k) == tagged(base, j),
        !taken.contains(fresh(base, taken, k)),
    decreases taken.len(),
{
    let name = tagged(base, k);
    if taken.contains(name) {
        let j = lemma_fresh(base, taken.remove(taken.index_of(name)), k + 1);
        lemma_tags_differ(base, k, j);
        if taken.contains(tagged(base, j)) {
            lemma_removed(taken, name, tagged(base, j));
        }
        j
    } else {
        k
    }
}

proof fn lemma_told_apart(v: Seq<SampleView>)
    ensures
        told_apart(v).len() == v.len(),
        outs(told_apart(v)).no_duplicates(),
        forall|i: int| 0 <= i < v.len() ==> (#[trigger] told_apart(v)[i]).file == v[i].file,
    decreases v.len(),
{
    if v.len() > 0 {
        lemma_told_apart(v.drop_last());
        let r = told_apart(v.drop_last());
        let all = told_apart(v);
        let _ = lemma_fresh(v.last().out, outs(r), 0);
        assert(outs(all) =~= outs(r).push(all.last().out));
        assert forall|i: int, j: int|
            0 <= i < outs(all).len() && 0 <= j < outs(all).len() && i != j implies outs(all)[i]
            != outs(all)[j] by {
            if i == r.len() {
                assert(outs(r).contains(outs(r)[j]));
            } else if j == r.len() {
                assert(outs(r).contains(outs(r)[i]));
            }
        }
        assert forall|i: int| 0 <= i < v.len() implies (#[trigger] all[i]).file == v[i].file by {
            if i < r.len() {
                assert(r[i].file == v.drop_last()[i].file);
            }
        }
    }
}

/// No sample of a bank goes out over another: their names are all different.
pub proof fn no_sample_overwrites_another(files: Seq<Seq<char>>, i: int, j: int)
    requires
        0 <= i < j < samples_in(files).len(),
    ensures
        samples_in(files)[i].out != samples_in(files)[j].out,
{
    lemma_told_apart(samples_for(files, unrepeated(ordered(sample_names(files)))));
    assert(outs(samples_in(files))[i] != outs(samples_in(files))[j]);
}

/// The samples of a bank that was decoded into files, each with the name it goes
/// out under. No two go out under one name.
pub fn samples(files: &Vec<String>) -> (r: Vec<Sample>)
    ensures
        sample_views(r@) == samples_in(texts(files@)),
        forall|i: int, j: int| 0 <= i < j < r@.len() ==> r@[i].out@ != r@[j].out@,
{
    let all = want_names(files);
    let ghost wanted = sample_views(all@);
    let mut r: Vec<Sample> = Vec::new();
    let mut names: Vec<String> = Vec::new();
    let mut i: usize = 0;
    assert(wanted.take(0) =~= Seq::<SampleView>::empty());
    assert(sample_views(r@) =~= Seq::<SampleView>::empty());
    assert(texts(names@) =~= outs(sample_views(r@)));
    while i < all.len()
        invariant
            i <= all@.len(),
            wanted == sample_views(all@),
            sample_views(r@) == told_apart(wanted.take(i as int)),
            texts(names@) == outs(sample_views(r@)),
        decreases all@.len() - i,
    {
        assert(wanted.take(i + 1).drop_last() =~= wanted.take(i as int));
        let ghost before = sample_views(r@);
        let out = make_fresh(all[i].out.as_str(), &names);
        let s = Sample { file: all[i].file.as_str().to_owned(), out };
        let ghost sv = s@;
        let ghost taken = texts(names@);
        names.push(s.out.as_str().to_owned());
        r.push(s);
        assert(sample_views(r@) =~= before.push(sv));
        assert(texts(names@) =~= taken.push(sv.out));
        assert(outs(before.push(sv)) =~= outs(before).push(sv.out));
        i = i + 1;
    }
    assert(wanted.take(i as int) =~= wanted);
    proof {
        lemma_told_apart(wanted);
        let v = sample_views(r@);
        assert forall|i: int, j: int| 0 <= i < j < r@.len() implies r@[i].out@ != r@[j].out@ by {
            assert(outs(v)[i] != outs(v)[j]);
        }
    }
    r
}

/// The samples with the names that they are to have, each name's files in order.
fn want_names(files: &Vec<String>) -> (r: Vec<Sample>)
    ensures
        sample_views(r@) == samples_for(
            texts(files@),
            unrepeated(ordered(sample_names(texts(files@)))),
        ),
{
    let names = dedup(sort(list_names(files)));
    let ghost fv = texts(files@);
    let ghost nv = texts(names@);
    let mut r: Vec<Sample> = Vec::new();
    let mut k: usize = 0;
    assert(nv.take(0) =~= Seq::<Seq<char>>::empty());
    assert(sample_views(r@) =~= Seq::<SampleView>::empty());
    while k < names.len()
        invariant
            k <= names@.len(),
            fv == texts(files@),
            nv == texts(names@),
            sample_views(r@) == samples_for(fv, nv.take(k as int)),
        decreases names@.len() - k,
    {
        assert(nv.take(k + 1).drop_last() =~= nv.take(k as int));
        let name = names[k].as_str();
        let mine = sort(list_files(files, name));
        let ghost before = sample_views(r@);
        let ghost here = samples_named(name@, texts(mine@));
        let n: usize = mine.len();
        let mut i: usize = 0;
        assert(before + here.take(0) =~= before);
        while i < n
            invariant
                i <= n,
                n == mine@.len(),
                here == samples_named(name@, texts(mine@)),
                sample_views(r@) == before + here.take(i as int),
            decreases n - i,
        {
            let base = if n > 1 {
                cat3(name, "_", write_usize(i + 1).as_str())
            } else {
                name.to_owned()
            };
            let ghost prior = sample_views(r@);
            let s = Sample { file: mine[i].as_str().to_owned(), out: safe_name(base.as_str()) };
            let ghost sv = s@;
            r.push(s);
            assert(sv == here[i as int]);
            assert(sample_views(r@) =~= prior.push(sv));
            assert(prior.push(sv) =~= before + here.take(i + 1));
            i = i + 1;
        }
        assert(here.take(n as int) =~= here);
        k = k + 1;
    }
    assert(nv.take(k as int) =~= nv);
    r
}

/// Different numbers are written differently.
proof fn lemma_decimal_differs(a: nat, b: nat)
    requires
        a != b,
    ensures
        decimal(a) != decimal(b),
    decreases a + b,
{
    let x = decimal(a);
    let y = decimal(b);
    if a < 10 && b < 10 {
        assert(x[0] != y[0]);
    } else if a < 10 {
        lemma_digits_nonempty(b / 10);
        assert(x.len() == 1 && y.len() > 1);
    } else if b < 10 {
        lemma_digits_nonempty(a / 10);
        assert(y.len() == 1 && x.len() > 1);
    } else if a % 10 != b % 10 {
        assert(x.last() != y.last());
    } else {
        lemma_decimal_differs(a / 10, b / 10);
        assert(x.drop_last() =~= decimal(a / 10));
        assert(y.drop_last() =~= decimal(b / 10));
    }
}

proof fn lemma_digits_nonempty(n: nat)
    ensures
        decimal(n).len() > 0,
{
}

/// Two samples of one name are given different ones: each gets a number of its own
/// behind it.
pub proof fn repeated_names_get_numbers_of_their_own(name: Seq<char>, i: nat, j: nat, n: nat)
    requires
        i < n,
        j < n,
        i != j,
    ensures
        numbered_name(name, i, n) != numbered_name(name, j, n),
{
    lemma_decimal_differs(i + 1, j + 1);
    let a = numbered_name(name, i, n);
    let b = numbered_name(name, j, n);
    let k = (name + "_"@).len() as int;
    assert(a.skip(k) =~= decimal(i + 1));
    assert(b.skip(k) =~= decimal(j + 1));
}

// ---------------------------------------------------------------- notes ---

/// Whether a mod gave no sound at all.
pub open spec fn silent(r: Report) -> bool {
    r.converted == 0 && r.copied == 0 && r.banks == 0
}

/// What is said of the sounds of a mod: a warning, if any, and a note.
pub open spec fn sound_notes(r: Report, encoder: bool) -> (Option<Seq<char>>, Seq<char>) {
    if silent(r) {
        (None, "this mod ships no sound"@)
    } else {
        (
            if !encoder && r.copied > 0 {
                Some("ffmpeg not found - sound copied in its original format instead of MP3"@)
            } else {
                None
            },
            "sound: "@ + decimal(r.converted as nat) + " converted to MP3, "@ + decimal(
                r.copied as nat,
            ) + " copied as-is, "@ + decimal(r.banks as nat)
                + " FMOD bank(s) (a bank needs FMOD's own tools to open)"@,
        )
    }
}

pub fn notes(r: &Report, encoder: bool) -> (n: (Option<String>, String))
    ensures
        (opt_text(n.0), n.1@) == sound_notes(*r, encoder),
{
    if r.converted == 0 && r.copied == 0 && r.banks == 0 {
        return (None, "this mod ships no sound".to_owned());
    }
    let warning = if !encoder && r.copied > 0 {
        Some(
            "ffmpeg not found - sound copied in its original format instead of MP3".to_owned(),
        )
    } else {
        None
    };
    let a = cat3("sound: ", write_usize(r.converted).as_str(), " converted to MP3, ");
    let b = cat3(a.as_str(), write_usize(r.copied).as_str(), " copied as-is, ");
    let c = cat3(
        b.as_str(),
        write_usize(r.banks).as_str(),
        " FMOD bank(s) (a bank needs FMOD's own tools to open)",
    );
    (warning, c)
}

// -------------------------------------------------------------- library ---

/// What a sound library of many mods has come to.
#[verifier::ext_equal]
pub struct TallyView {
    pub with_sound: usize,
    pub without: usize,
    pub mp3: usize,
    pub banks: usize,
    pub bank_only: Seq<Seq<char>>,
}

/// Whether nothing that came out of a mod can be played.
pub open spec fn unplayable(r: Report) -> bool {
    r.converted == 0 && r.copied == 0 && r.bank_samples == 0
}

/// The tally with one mod more. One whose audio cannot be converted contributes
/// nothing.
pub open spec fn tallied(t: TallyView, name: Seq<char>, r: Report) -> TallyView {
    if unplayable(r) {
        TallyView {
            without: capped(t.without + 1),
            bank_only: if r.banks > 0 {
                t.bank_only.push(name + " ("@ + decimal(r.banks as nat) + " bank)"@)
            } else {
                t.bank_only
            },
            ..t
        }
    } else {
        TallyView {
            with_sound: capped(t.with_sound + 1),
            mp3: capped(t.mp3 + capped(r.converted + r.bank_samples)),
            banks: capped(t.banks + r.banks),
            ..t
        }
    }
}

/// The line that a mod with sound gets.
pub open spec fn mod_line(name: Seq<char>, r: Report) -> Option<Seq<char>> {
    if unplayable(r) {
        None
    } else {
        Some(
            name + ": "@ + decimal(r.converted as nat) + " loose + "@ + decimal(
                r.bank_samples as nat,
            ) + " from "@ + decimal(r.banks as nat) + " bank(s)"@,
        )
    }
}

pub struct Tally {
    pub with_sound: usize,
    pub without: usize,
    pub mp3: usize,
    pub banks: usize,
    pub bank_only: Vec<String>,
}

impl View for Tally {
    type V = TallyView;

    open spec fn view(&self) -> TallyView {
        TallyView {
            with_sound: self.with_sound,
            without: self.without,
            mp3: self.mp3,
            banks: self.banks,
            bank_only: texts(self.bank_only@),
        }
    }
}

impl Tally {
    pub fn new() -> (r: Tally)
        ensures
            r@ == (TallyView {
                with_sound: 0,
                without: 0,
                mp3: 0,
                banks: 0,
                bank_only: Seq::empty(),
            }),
    {
        let r = Tally { with_sound: 0, without: 0, mp3: 0, banks: 0, bank_only: Vec::new() };
        assert(texts(r.bank_only@) =~= Seq::<Seq<char>>::empty());
        r
    }

    /// Counts a mod in, and gives the line to print for it. Where there is none,
    /// nothing in it can be played and its folder is to go.
    pub fn count(&mut self, name: &str, r: &Report) -> (line: Option<String>)
        ensures
            final(self)@ == tallied(old(self)@, name@, *r),
            opt_text(line) == mod_line(name@, *r),
    {
        let ghost was = self@;
        if r.converted == 0 && r.copied == 0 && r.bank_samples == 0 {
            self.without = add_capped(self.without, 1);
            if r.banks > 0 {
                let s = cat3(cat(name, " (").as_str(), write_usize(r.banks).as_str(), " bank)");
                let ghost sv = s@;
                self.bank_only.push(s);
                assert(texts(self.bank_only@) =~= was.bank_only.push(sv));
            }
            return None;
        }
        self.with_sound = add_capped(self.with_sound, 1);
        self.mp3 = add_capped(
            self.mp3,
            add_capped(r.converted, r.bank_samples),
        );
        self.banks = add_capped(self.banks, r.banks);
        let a = cat3(name, ": ", write_usize(r.converted).as_str());
        let b = cat3(a.as_str(), " loose + ", write_usize(r.bank_samples).as_str());
        let c = cat3(b.as_str(), " from ", write_usize(r.banks).as_str());
        Some(cat(c.as_str(), " bank(s)"))
    }
}

} // verus!
