//! One interface over the container formats a `.scs` file can be.
//!
//! Most mods ship HashFS ("SCS#"). Some ship an ordinary zip instead - and a few
//! of those carry a small header before the zip data. Because a zip is located
//! from its End Of Central Directory at the *end* of the file, a prefix like that
//! is harmless, so the magic at offset 0 is not a reliable test. HashFS is tried
//! first, with zip to fall back on.

use crate::bytes::le16;
use crate::harvest::four;
use crate::hashfs::{data_of, opened, truncated, truncation, Fault, HashFs, ScsError, Table};
use crate::rawzip::{
    a_consistent_zip_is_not_falsely_locked, content, contradicted, listing, locked_falsely,
    read_directory, Listing, RawZip,
};
use crate::salvage::{extraction, round_views, Plain, Round};
use crate::text::{
    cat, cat3, chars_of, decimal, ends, carries, holds, equals, parts, pieces, replace, split, string_of,
    texts, with_for, write_decimal, write_usize,
};
use std::io::Read;
use vstd::prelude::*;

verus! {

// ------------------------------------------------------ conforming zips ---

#[verifier::external_type_specification]
#[verifier::external_body]
#[verifier::reject_recursive_types(T)]
pub struct ExCursor<T>(std::io::Cursor<T>);

#[verifier::external_type_specification]
#[verifier::external_body]
#[verifier::reject_recursive_types(R)]
pub struct ExZipArchive<R>(zip::ZipArchive<R>);

/// A zip in memory, as the `zip` crate reads it.
pub type Zip = zip::ZipArchive<std::io::Cursor<Vec<u8>>>;

/// What a zip says of each of its entries: the name and whether it is a folder,
/// or the reason given for an unsupported entry and the text of the error.
pub uninterp spec fn zip_heads(z: zip::ZipArchive<std::io::Cursor<Vec<u8>>>) -> Seq<
    Result<(Seq<char>, bool), (Option<Seq<char>>, Seq<char>)>,
>;

/// What a zip holds in each of its entries, or the text of the error that
/// reading it gives.
pub uninterp spec fn zip_contents(z: zip::ZipArchive<std::io::Cursor<Vec<u8>>>) -> Seq<
    Result<Seq<u8>, Seq<char>>,
>;

/// What `zip::ZipArchive::new` makes of some bytes: what the archive says of its
/// entries and what it holds in them, or the text of the error.
pub uninterp spec fn zip_opened(b: Seq<u8>) -> Result<
    (
        Seq<Result<(Seq<char>, bool), (Option<Seq<char>>, Seq<char>)>>,
        Seq<Result<Seq<u8>, Seq<char>>>,
    ),
    Seq<char>,
>;

/// Why an entry of a zip cannot be had: the reason, where the crate calls it
/// unsupported, and the text of the error.
pub struct ZipFault {
    pub reason: Option<String>,
    pub text: String,
}

pub open spec fn head_of(r: Result<(String, bool), ZipFault>) -> Result<
    (Seq<char>, bool),
    (Option<Seq<char>>, Seq<char>),
> {
    match r {
        Ok(h) => Ok((h.0@, h.1)),
        Err(f) => Err((crate::text::opt_text(f.reason), f.text@)),
    }
}

/// `zip::ZipArchive::new` over bytes in memory. Whether they are a zip, and what
/// that says and holds, depends on the bytes alone.
#[verifier::external_body]
pub(crate) fn zip_open(data: Vec<u8>) -> (r: Result<Zip, String>)
    ensures
        match r {
            Ok(z) => zip_opened(data@) == Ok::<_, Seq<char>>((zip_heads(z), zip_contents(z))),
            Err(m) => zip_opened(data@) == Err::<
                (
                    Seq<Result<(Seq<char>, bool), (Option<Seq<char>>, Seq<char>)>>,
                    Seq<Result<Seq<u8>, Seq<char>>>,
                ),
                Seq<char>,
            >(m@),
        },
{
    match zip::ZipArchive::new(std::io::Cursor::new(data)) {
        Ok(z) => Ok(z),
        Err(e) => Err(e.to_string()),
    }
}

/// `zip::ZipArchive::len`: the number of entries.
#[verifier::external_body]
pub(crate) fn zip_len(z: &Zip) -> (r: usize)
    ensures
        r == zip_heads(*z).len(),
{
    z.len()
}

/// `zip::ZipArchive::by_index`, for the name of an entry and whether it is a
/// folder. Asking changes nothing that the archive says or holds.
#[verifier::external_body]
pub(crate) fn zip_head(z: &mut Zip, i: usize) -> (r: Result<(String, bool), ZipFault>)
    requires
        i < zip_heads(*old(z)).len(),
    ensures
        head_of(r) == zip_heads(*old(z))[i as int],
        zip_heads(*final(z)) == zip_heads(*old(z)),
        zip_contents(*final(z)) == zip_contents(*old(z)),
{
    match z.by_index(i) {
        Ok(e) => Ok((e.name().to_owned(), e.is_dir())),
        Err(zip::result::ZipError::UnsupportedArchive(m)) => Err(
            ZipFault {
                reason: Some(m.to_owned()),
                text: zip::result::ZipError::UnsupportedArchive(m).to_string(),
            },
        ),
        Err(e) => Err(ZipFault { reason: None, text: e.to_string() }),
    }
}

/// `zip::read::ZipFile`, read to its end: the data of an entry, or the text of
/// the error. Reading changes nothing that the archive says or holds.
#[verifier::external_body]
pub(crate) fn zip_data(z: &mut Zip, i: usize) -> (r: Result<Vec<u8>, String>)
    requires
        i < zip_heads(*old(z)).len(),
    ensures
        crate::packing::outcome(r) == zip_contents(*old(z))[i as int],
        zip_heads(*final(z)) == zip_heads(*old(z)),
        zip_contents(*final(z)) == zip_contents(*old(z)),
{
    let mut e = match z.by_index(i) {
        Ok(e) => e,
        Err(e) => return Err(e.to_string()),
    };
    let mut buf: Vec<u8> = Vec::new();
    match e.read_to_end(&mut buf) {
        Ok(_) => Ok(buf),
        Err(e) => Err(e.to_string()),
    }
}

// -------------------------------------------------------------- opening ---

pub enum Archive {
    HashFs(Box<HashFs>),
    Zip(Box<Zip>),
    /// a zip whose metadata claims encryption it does not have
    RawZip(Box<RawZip>),
}

/// What an archive is.
pub enum Form {
    HashFs(Table),
    Zip(
        Seq<Result<(Seq<char>, bool), (Option<Seq<char>>, Seq<char>)>>,
        Seq<Result<Seq<u8>, Seq<char>>>,
    ),
    RawZip(Seq<u8>, Listing),
}

impl View for Archive {
    type V = Form;

    open spec fn view(&self) -> Form {
        match self {
            Archive::HashFs(h) => Form::HashFs((**h)@),
            Archive::Zip(z) => Form::Zip(zip_heads(**z), zip_contents(**z)),
            Archive::RawZip(r) => Form::RawZip((**r).data@, (**r)@),
        }
    }
}

/// Whether some bytes call themselves HashFS.
pub open spec fn says_hashfs(b: Seq<u8>) -> bool {
    four(b, 0, 0x53, 0x43, 0x53, 0x23)
}

/// Whether a zip's directory can be read and is contradicted by the local
/// headers while it claims encryption.
pub open spec fn falsely_locked(b: Seq<u8>) -> bool {
    listing(b) matches Ok(l) && locked_falsely(l)
}

/// What the conforming reader's answer comes to.
pub open spec fn as_zip(
    r: Result<
        (
            Seq<Result<(Seq<char>, bool), (Option<Seq<char>>, Seq<char>)>>,
            Seq<Result<Seq<u8>, Seq<char>>>,
        ),
        Seq<char>,
    >,
) -> Result<Form, Fault> {
    match r {
        Ok(z) => Ok(Form::Zip(z.0, z.1)),
        Err(m) => Err(
            Fault::Inflate("not a HashFS archive and not readable as a zip: "@ + m),
        ),
    }
}

/// The archive that some bytes are. A mod "locked" by flipping the encryption
/// bit is caught before the conforming reader, which would believe the bit; a
/// genuinely encrypted zip is consistent with itself, and is left to that reader.
pub open spec fn archive_in(b: Seq<u8>) -> Result<Form, Fault> {
    if b.len() < 4 {
        Err(truncated())
    } else if says_hashfs(b) {
        match opened(b) {
            Ok(t) => Ok(Form::HashFs(t)),
            Err(f) => Err(f),
        }
    } else if falsely_locked(b) {
        Ok(Form::RawZip(b, listing(b)->Ok_0))
    } else {
        as_zip(zip_opened(b))
    }
}

pub open spec fn form_of(r: Result<Archive, ScsError>) -> Result<Form, Fault> {
    match r {
        Ok(a) => Ok(a@),
        Err(e) => Err(e@),
    }
}

pub open spec fn zip_answer(r: Result<Zip, String>) -> Result<
    (
        Seq<Result<(Seq<char>, bool), (Option<Seq<char>>, Seq<char>)>>,
        Seq<Result<Seq<u8>, Seq<char>>>,
    ),
    Seq<char>,
> {
    match r {
        Ok(z) => Ok((zip_heads(z), zip_contents(z))),
        Err(m) => Err(m@),
    }
}

/// Settles what the conforming reader's answer comes to.
pub fn settle(r: Result<Zip, String>) -> (a: Result<Archive, ScsError>)
    ensures
        form_of(a) == as_zip(zip_answer(r)),
        a matches Ok(z) ==> z.wf(),
{
    match r {
        Ok(z) => Ok(Archive::Zip(Box::new(z))),
        Err(m) => Err(
            ScsError::Inflate(
                cat("not a HashFS archive and not readable as a zip: ", m.as_str()),
            ),
        ),
    }
}

// ----------------------------------------------------------- extracting ---

/// What to put at a path.
pub enum What {
    Folder,
    /// the entry with this key, of a HashFS archive
    Key(u64),
    /// the entry with this index, of a zip
    Index(usize),
}

/// One thing to write: the parts of its path, and what to put there.
pub struct Item {
    pub path: Vec<String>,
    pub what: What,
}

#[verifier::ext_equal]
pub struct ItemView {
    pub path: Seq<Seq<char>>,
    pub what: What,
}

impl View for Item {
    type V = ItemView;

    open spec fn view(&self) -> ItemView {
        ItemView { path: texts(self.path@), what: self.what }
    }
}

pub open spec fn item_views(v: Seq<Item>) -> Seq<ItemView> {
    Seq::new(v.len(), |i: int| v[i]@)
}

/// What unpacking an archive writes, and how it ends.
pub struct Unpacking {
    pub items: Vec<Item>,
    /// the files without a name that a deep scan reads first
    pub unnamed: usize,
    /// the rounds of a deep scan
    pub rounds: Vec<Round>,
    /// entries of a falsely locked zip that could not be read
    pub failed: usize,
    /// (named, recovered by deep scan, written under their hash)
    pub ending: Result<(usize, usize, usize), ScsError>,
}

#[verifier::ext_equal]
pub struct UnpackingView {
    pub items: Seq<ItemView>,
    pub unnamed: nat,
    pub rounds: Seq<(nat, Option<nat>)>,
    pub failed: nat,
    pub ending: Result<(nat, nat, nat), Fault>,
}

pub open spec fn ending_of(r: Result<(usize, usize, usize), ScsError>) -> Result<
    (nat, nat, nat),
    Fault,
> {
    match r {
        Ok(n) => Ok((n.0 as nat, n.1 as nat, n.2 as nat)),
        Err(e) => Err(e@),
    }
}

impl View for Unpacking {
    type V = UnpackingView;

    open spec fn view(&self) -> UnpackingView {
        UnpackingView {
            items: item_views(self.items@),
            unnamed: self.unnamed as nat,
            rounds: round_views(self.rounds@),
            failed: self.failed as nat,
            ending: ending_of(self.ending),
        }
    }
}

/// A name with forward slashes only.
pub open spec fn slashed(name: Seq<char>) -> Seq<char> {
    with_for(name, '\\', '\\', '/')
}

/// Whether a part of a path names something, and not this folder or the one
/// above.
pub open spec fn plain_part(p: Seq<char>) -> bool {
    p.len() > 0 && p != "."@ && p != ".."@
}

pub open spec fn plain_parts(v: Seq<Seq<char>>) -> Seq<Seq<char>>
    decreases v.len(),
{
    if v.len() == 0 {
        Seq::empty()
    } else if plain_part(v.last()) {
        plain_parts(v.drop_last()).push(v.last())
    } else {
        plain_parts(v.drop_last())
    }
}

/// The parts of the path that a zip entry's name stands for.
pub open spec fn safe_path(name: Seq<char>) -> Seq<Seq<char>> {
    plain_parts(pieces(slashed(name), '/'))
}

/// Where the name of a zip entry leads stays inside the destination: every part
/// of it is a plain name.
pub proof fn zip_paths_stay_inside(name: Seq<char>, i: int)
    requires
        0 <= i < safe_path(name).len(),
    ensures
        plain_part(safe_path(name)[i]),
        !safe_path(name)[i].contains('/'),
{
    lemma_plain_parts(pieces(slashed(name), '/'), i);
    let p = safe_path(name)[i];
    let k = pieces(slashed(name), '/').index_of(p);
    lemma_pieces_lack(slashed(name), '/', k);
}

proof fn lemma_plain_parts(v: Seq<Seq<char>>, i: int)
    requires
        0 <= i < plain_parts(v).len(),
    ensures
        plain_part(plain_parts(v)[i]),
        v.contains(plain_parts(v)[i]),
    decreases v.len(),
{
    if v.len() > 0 {
        let f = v.drop_last();
        assert(v =~= f.push(v.last()));
        assert(v[v.len() - 1] == v.last());
        if i < plain_parts(f).len() {
            lemma_plain_parts(f, i);
            let k = f.index_of(plain_parts(f)[i]);
            assert(v[k] == plain_parts(f)[i]);
        }
    }
}

proof fn lemma_pieces_lack(s: Seq<char>, c: char, k: int)
    requires
        0 <= k < pieces(s, c).len(),
    ensures
        !pieces(s, c)[k].contains(c),
    decreases s.len(),
{
    if s.len() > 0 {
        let p = pieces(s.drop_last(), c);
        crate::text::lemma_pieces_nonempty(s.drop_last(), c);
        if k < p.len() {
            lemma_pieces_lack(s.drop_last(), c, k);
            if s.last() != c && k == p.len() - 1 {
                let t = p.last().push(s.last());
                if t.contains(c) {
                    let i = t.index_of(c);
                    assert(p.last()[i] == c);
                    assert(p.last().contains(c));
                }
            }
        }
    }
}

fn safe_parts(name: &[char]) -> (r: Vec<String>)
    ensures
        texts(r@) == plain_parts(pieces(name@, '/')),
{
    let v = split(name, '/');
    let mut r: Vec<String> = Vec::new();
    let mut i: usize = 0;
    let ghost all = pieces(name@, '/');
    assert(texts(r@) =~= plain_parts(all.take(0)));
    while i < v.len()
        invariant
            i <= v@.len(),
            parts(v@) == all,
            texts(r@) == plain_parts(all.take(i as int)),
        decreases v@.len() - i,
    {
        assert(parts(v@)[i as int] == v@[i as int]@);
        assert(all.take(i + 1).drop_last() =~= all.take(i as int));
        if v[i].len() > 0 && !equals(v[i], ".") && !equals(v[i], "..") {
            let ghost before = texts(r@);
            r.push(string_of(v[i]));
            assert(texts(r@) =~= before.push(v@[i as int]@));
        }
        i = i + 1;
    }
    assert(all.take(i as int) =~= all);
    r
}

/// The plan of a HashFS extraction, as things to write.
pub open spec fn keyed(plan: Seq<(Seq<char>, u64)>) -> Seq<ItemView> {
    Seq::new(
        plan.len(),
        |i: int| ItemView { path: pieces(plan[i].0, '/'), what: What::Key(plan[i].1) },
    )
}

/// How far the unpacking of a zip has come.
#[verifier::ext_equal]
pub struct Progress {
    pub items: Seq<ItemView>,
    pub written: nat,
    pub failed: nat,
    pub fault: Option<Fault>,
}

pub open spec fn no_progress() -> Progress {
    Progress { items: Seq::empty(), written: 0, failed: 0, fault: None }
}

/// Why an entry cannot be had. The author's mark of protection is honoured.
pub open spec fn refused(f: (Option<Seq<char>>, Seq<char>)) -> Fault {
    match f.0 {
        Some(reason) => if carries(reason, "Password"@) {
            Fault::Encrypted
        } else {
            Fault::Inflate(f.1)
        },
        None => Fault::Inflate(f.1),
    }
}

/// `s` with entry `i` of a zip, of which `head` is said and which holds `data`.
pub open spec fn with_zip_entry(
    s: Progress,
    i: int,
    head: Result<(Seq<char>, bool), (Option<Seq<char>>, Seq<char>)>,
    data: Result<Seq<u8>, Seq<char>>,
) -> Progress {
    if s.fault is Some {
        s
    } else {
        match head {
            Err(f) => Progress { fault: Some(refused(f)), ..s },
            Ok(h) => {
                let path = safe_path(h.0);
                if "/"@.is_suffix_of(slashed(h.0)) || h.1 {
                    Progress { items: s.items.push(ItemView { path, what: What::Folder }), ..s }
                } else {
                    match data {
                        Err(m) => Progress { fault: Some(Fault::Io(m)), ..s },
                        Ok(_) => Progress {
                            items: s.items.push(
                                ItemView { path, what: What::Index(i as usize) },
                            ),
                            written: s.written + 1,
                            ..s
                        },
                    }
                }
            },
        }
    }
}

/// The first `n` entries of a zip.
pub open spec fn with_zip_entries(
    heads: Seq<Result<(Seq<char>, bool), (Option<Seq<char>>, Seq<char>)>>,
    contents: Seq<Result<Seq<u8>, Seq<char>>>,
    n: nat,
) -> Progress
    decreases n,
{
    if n == 0 {
        no_progress()
    } else {
        let i = n - 1;
        with_zip_entry(
            with_zip_entries(heads, contents, i as nat),
            i,
            heads[i],
            contents[i],
        )
    }
}

/// The first `n` entries of a falsely locked zip. One unreadable entry does not
/// lose the others.
pub open spec fn with_raw_entries(b: Seq<u8>, l: Listing, n: nat) -> Progress
    decreases n,
{
    if n == 0 {
        no_progress()
    } else {
        let i = n - 1;
        let s = with_raw_entries(b, l, i as nat);
        let e = l.entries[i];
        let path = safe_path(e.name);
        if "/"@.is_suffix_of(slashed(e.name)) {
            Progress { items: s.items.push(ItemView { path, what: What::Folder }), ..s }
        } else if content(b, e) is Ok {
            Progress {
                items: s.items.push(ItemView { path, what: What::Index(i as usize) }),
                written: s.written + 1,
                ..s
            }
        } else {
            Progress { failed: s.failed + 1, ..s }
        }
    }
}

pub open spec fn ended(s: Progress) -> UnpackingView {
    UnpackingView {
        items: s.items,
        unnamed: 0,
        rounds: Seq::empty(),
        failed: s.failed,
        ending: match s.fault {
            Some(f) => Err(f),
            None => Ok((s.written, 0, 0)),
        },
    }
}

/// What unpacking an archive comes to. A zip stores real names, so nothing in it
/// is recovered or written under a hash.
pub open spec fn unpacked(a: Form, plain: Map<u64, Seq<u8>>, deep: bool) -> UnpackingView {
    match a {
        Form::HashFs(t) => UnpackingView {
            items: keyed(extraction(t, plain, deep).plan),
            unnamed: extraction(t, plain, deep).unnamed,
            rounds: extraction(t, plain, deep).rounds,
            failed: 0,
            ending: extraction(t, plain, deep).ending,
        },
        Form::Zip(heads, contents) => ended(with_zip_entries(heads, contents, heads.len())),
        Form::RawZip(b, l) => ended(with_raw_entries(b, l, l.entries.len())),
    }
}

struct Tally {
    items: Vec<Item>,
    written: usize,
    failed: usize,
    fault: Option<ScsError>,
}

impl View for Tally {
    type V = Progress;

    closed spec fn view(&self) -> Progress {
        Progress {
            items: item_views(self.items@),
            written: self.written as nat,
            failed: self.failed as nat,
            fault: crate::salvage::fault_of(self.fault),
        }
    }
}

impl Tally {
    fn new() -> (r: Tally)
        ensures
            r@ == no_progress(),
    {
        let r = Tally { items: Vec::new(), written: 0, failed: 0, fault: None };
        assert(r@ =~= no_progress());
        r
    }

    fn add(&mut self, path: Vec<String>, what: What)
        ensures
            final(self)@ == (Progress {
                items: old(self)@.items.push(ItemView { path: texts(path@), what }),
                ..old(self)@
            }),
    {
        let ghost was = self@;
        let item = Item { path, what };
        let ghost seen = item@;
        self.items.push(item);
        assert(item_views(self.items@) =~= was.items.push(seen));
        assert(self@ =~= (Progress { items: was.items.push(seen), ..was }));
    }

    fn end(self) -> (r: Unpacking)
        ensures
            r@ == ended(self@),
    {
        let ending = match self.fault {
            Some(e) => Err(e),
            None => Ok((self.written, 0, 0)),
        };
        let rounds: Vec<Round> = Vec::new();
        assert(round_views(rounds@) =~= Seq::<(nat, Option<nat>)>::empty());
        Unpacking { items: self.items, unnamed: 0, rounds, failed: self.failed, ending }
    }
}

fn key_items(plan: &Vec<(String, u64)>) -> (r: Vec<Item>)
    ensures
        item_views(r@) == keyed(crate::salvage::plan_of(plan@)),
{
    let mut r: Vec<Item> = Vec::new();
    let mut i: usize = 0;
    let ghost all = keyed(crate::salvage::plan_of(plan@));
    while i < plan.len()
        invariant
            i <= plan@.len(),
            all == keyed(crate::salvage::plan_of(plan@)),
            item_views(r@) =~= all.take(i as int),
        decreases plan@.len() - i,
    {
        let c = chars_of(plan[i].0.as_str());
        let v = split(c.as_slice(), '/');
        let path = crate::text::strings_of(&v);
        let ghost before = item_views(r@);
        let item = Item { path, what: What::Key(plan[i].1) };
        let ghost seen = item@;
        r.push(item);
        assert(seen =~= all[i as int]);
        assert(item_views(r@) =~= before.push(all[i as int]));
        i = i + 1;
    }
    r
}

fn refuse(f: ZipFault) -> (r: ScsError)
    ensures
        r@ == refused((crate::text::opt_text(f.reason), f.text@)),
{
    match f.reason {
        Some(reason) => {
            let c = chars_of(reason.as_str());
            if holds(c.as_slice(), "Password") {
                ScsError::Encrypted
            } else {
                ScsError::Inflate(f.text)
            }
        },
        None => ScsError::Inflate(f.text),
    }
}

fn unpack_zip(z: &mut Zip) -> (r: Unpacking)
    ensures
        r@ == ended(
            with_zip_entries(zip_heads(*old(z)), zip_contents(*old(z)), zip_heads(*old(z)).len()),
        ),
        zip_heads(*final(z)) == zip_heads(*old(z)),
        zip_contents(*final(z)) == zip_contents(*old(z)),
{
    let ghost heads = zip_heads(*z);
    let ghost contents = zip_contents(*z);
    let n: usize = zip_len(z);
    let mut s = Tally::new();
    let mut i: usize = 0;
    while i < n
        invariant
            i <= n,
            n == heads.len(),
            zip_heads(*z) == heads,
            zip_contents(*z) == contents,
            s@ == with_zip_entries(heads, contents, i as nat),
            s.written <= i,
        decreases n - i,
    {
        let ghost was = s@;
        if s.fault.is_none() {
            match zip_head(z, i) {
                Err(f) => {
                    s.fault = Some(refuse(f));
                    assert(s@ =~= (Progress { fault: s@.fault, ..was }));
                },
                Ok((name, dir)) => {
                    let c = chars_of(name.as_str());
                    let c = replace(c.as_slice(), '\\', '\\', '/');
                    let path = safe_parts(c.as_slice());
                    if ends(c.as_slice(), "/") || dir {
                        s.add(path, What::Folder);
                    } else {
                        match zip_data(z, i) {
                            Err(m) => {
                                s.fault = Some(ScsError::Io(m));
                                assert(s@ =~= (Progress { fault: s@.fault, ..was }));
                            },
                            Ok(_) => {
                                s.add(path, What::Index(i));
                                let ghost mid = s@;
                                s.written = s.written + 1;
                                assert(s@ =~= (Progress { written: mid.written + 1, ..mid }));
                            },
                        }
                    }
                },
            }
        }
        i = i + 1;
    }
    s.end()
}

fn unpack_raw(z: &RawZip) -> (r: Unpacking)
    ensures
        r@ == ended(with_raw_entries(z.data@, z@, z@.entries.len())),
{
    let mut s = Tally::new();
    let mut i: usize = 0;
    while i < z.entries.len()
        invariant
            i <= z.entries@.len(),
            s@ == with_raw_entries(z.data@, z@, i as nat),
            s@.fault is None,
            s.written <= i,
            s.failed <= i,
        decreases z.entries@.len() - i,
    {
        assert(z@.entries[i as int] == z.entries@[i as int]@);
        let c = chars_of(z.entries[i].name.as_str());
        let c = replace(c.as_slice(), '\\', '\\', '/');
        let path = safe_parts(c.as_slice());
        if ends(c.as_slice(), "/") {
            s.add(path, What::Folder);
        } else {
            match z.read(i) {
                Ok(_) => {
                    s.add(path, What::Index(i));
                    let ghost mid = s@;
                    s.written = s.written + 1;
                    assert(s@ =~= (Progress { written: mid.written + 1, ..mid }));
                },
                Err(_) => {
                    let ghost mid = s@;
                    s.failed = s.failed + 1;
                    assert(s@ =~= (Progress { failed: mid.failed + 1, ..mid }));
                },
            }
        }
        i = i + 1;
    }
    s.end()
}

impl Archive {
    pub open spec fn wf(self) -> bool {
        self matches Archive::HashFs(h) ==> (*h).wf()
    }

    pub fn open(data: Vec<u8>) -> (r: Result<Archive, ScsError>)
        ensures
            form_of(r) == archive_in(data@),
            r matches Ok(a) ==> a.wf(),
            r matches Ok(Archive::HashFs(h)) ==> h.version == 1 && h.salt == le16(data@, 6),
    {
        if data.len() < 4 {
            return Err(truncation());
        }
        if data[0] == 0x53 && data[1] == 0x43 && data[2] == 0x53 && data[3] == 0x23 {
            return match HashFs::open(data) {
                Ok(h) => Ok(Archive::HashFs(Box::new(h))),
                Err(e) => Err(e),
            };
        }
        match read_directory(data.as_slice()) {
            Ok((entries, flagged_encrypted, inconsistent)) => {
                if flagged_encrypted > 0 && inconsistent > 0 {
                    return Ok(
                        Archive::RawZip(
                            Box::new(RawZip { data, entries, flagged_encrypted, inconsistent }),
                        ),
                    );
                }
            },
            Err(_) => {},
        }
        settle(zip_open(data))
    }

    pub fn kind(&self) -> (r: String)
        ensures
            match self@ {
                Form::HashFs(t) => r@ == "HashFS v"@ + decimal(t.version as nat),
                Form::Zip(_, _) => r@ == "zip"@,
                Form::RawZip(_, l) => r@ == "zip with a fake encryption flag on "@ + decimal(
                    l.flagged_encrypted,
                ) + " entries"@,
            },
    {
        match self {
            Archive::HashFs(h) => cat("HashFS v", write_decimal(h.version as u64).as_str()),
            Archive::Zip(_) => "zip".to_owned(),
            Archive::RawZip(z) => cat3(
                "zip with a fake encryption flag on ",
                write_usize(z.flagged_encrypted).as_str(),
                " entries",
            ),
        }
    }

    pub fn entry_count(&self) -> (r: usize)
        ensures
            match self@ {
                Form::HashFs(t) => r == t.order.len(),
                Form::Zip(heads, _) => r == heads.len(),
                Form::RawZip(_, l) => r == l.entries.len(),
            },
    {
        match self {
            Archive::HashFs(h) => h.order.len(),
            Archive::Zip(z) => zip_len(z),
            Archive::RawZip(z) => z.entries.len(),
        }
    }

    /// What unpacking the archive writes, and how it ends: with the numbers of
    /// entries named, recovered by deep scan and written under their hash, or
    /// with an error after what was written until then.
    pub fn extract_all(&mut self, deep: bool, plain: &Plain) -> (r: Unpacking)
        requires
            old(self).wf(),
        ensures
            r@ == unpacked(old(self)@, plain@, deep),
            final(self)@ == old(self)@,
            final(self).wf(),
    {
        match self {
            Archive::HashFs(h) => {
                let x = h.extract_all(deep, plain);
                let items = key_items(&x.plan);
                let r = Unpacking {
                    items,
                    unnamed: x.unnamed,
                    rounds: x.rounds,
                    failed: 0,
                    ending: x.ending,
                };
                assert(r@ =~= unpacked(Form::HashFs((**h)@), plain@, deep));
                r
            },
            Archive::Zip(z) => unpack_zip(z),
            Archive::RawZip(z) => unpack_raw(z),
        }
    }

    /// The data of one of the things to write.
    pub fn read_item(&mut self, what: &What) -> (r: Result<Vec<u8>, ScsError>)
        requires
            old(self).wf(),
        ensures
            data_of(r) == item_data(old(self)@, *what),
            final(self)@ == old(self)@,
            final(self).wf(),
    {
        broadcast use vstd::std_specs::hash::group_hash_axioms;

        match self {
            Archive::HashFs(h) => match what {
                What::Key(k) => match h.entries.get(k) {
                    Some(e) => h.read_entry(e),
                    None => Err(truncation()),
                },
                _ => Err(truncation()),
            },
            Archive::Zip(z) => match what {
                What::Index(i) => {
                    if *i < zip_len(z) {
                        match zip_data(z, *i) {
                            Ok(b) => Ok(b),
                            Err(m) => Err(ScsError::Io(m)),
                        }
                    } else {
                        Err(truncation())
                    }
                },
                _ => Err(truncation()),
            },
            Archive::RawZip(z) => match what {
                What::Index(i) => if *i < z.entries.len() {
                    assert((**z)@.entries[*i as int] == z.entries@[*i as int]@);
                    z.read(*i)
                } else {
                    Err(truncation())
                },
                _ => Err(truncation()),
            },
        }
    }
}

/// What stands behind a thing to write; what the archive does not have reads like
/// a file that ends too soon.
pub open spec fn item_data(a: Form, what: What) -> Result<Seq<u8>, Fault> {
    match (a, what) {
        (Form::HashFs(t), What::Key(k)) => if t.entries.contains_key(k) {
            t.payload(t.entries[k])
        } else {
            Err(truncated())
        },
        (Form::Zip(heads, contents), What::Index(i)) => if i < heads.len() {
            match contents[i as int] {
                Ok(b) => Ok(b),
                Err(m) => Err(Fault::Io(m)),
            }
        } else {
            Err(truncated())
        },
        (Form::RawZip(b, l), What::Index(i)) => if i < l.entries.len() {
            content(b, l.entries[i as int])
        } else {
            Err(truncated())
        },
        _ => Err(truncated()),
    }
}

/// A zip that is consistent with itself is left to the conforming reader, however
/// many of its entries claim to be encrypted.
pub proof fn a_consistent_zip_is_read_as_one(b: Seq<u8>)
    requires
        b.len() >= 4,
        !says_hashfs(b),
        listing(b) matches Ok(l) ==> forall|i: int|
            0 <= i < l.entries.len() ==> !contradicted(b, #[trigger] l.entries[i]),
    ensures
        archive_in(b) == as_zip(zip_opened(b)),
{
    if listing(b) is Ok {
        a_consistent_zip_is_not_falsely_locked(b);
    }
}

/// Whether entry `i` of a zip comes out: as a folder, or as a file that can be
/// read.
pub open spec fn comes_out(
    head: Result<(Seq<char>, bool), (Option<Seq<char>>, Seq<char>)>,
    data: Result<Seq<u8>, Seq<char>>,
) -> bool {
    head matches Ok(h) && ("/"@.is_suffix_of(slashed(h.0)) || h.1 || data is Ok)
}

proof fn lemma_fault_settles(
    heads: Seq<Result<(Seq<char>, bool), (Option<Seq<char>>, Seq<char>)>>,
    contents: Seq<Result<Seq<u8>, Seq<char>>>,
    i: int,
    n: nat,
)
    requires
        0 <= i < n,
        forall|j: int| 0 <= j < i ==> comes_out(#[trigger] heads[j], contents[j]),
        heads[i] is Err,
    ensures
        with_zip_entries(heads, contents, i as nat).fault is None,
        with_zip_entries(heads, contents, n).fault == Some(refused(heads[i]->Err_0)),
    decreases n,
{
    if i + 1 < n {
        lemma_fault_settles(heads, contents, i, (n - 1) as nat);
    } else {
        lemma_no_fault_before(heads, contents, i as nat);
    }
}

proof fn lemma_no_fault_before(
    heads: Seq<Result<(Seq<char>, bool), (Option<Seq<char>>, Seq<char>)>>,
    contents: Seq<Result<Seq<u8>, Seq<char>>>,
    n: nat,
)
    requires
        forall|j: int| 0 <= j < n ==> comes_out(#[trigger] heads[j], contents[j]),
    ensures
        with_zip_entries(heads, contents, n).fault is None,
    decreases n,
{
    if n > 0 {
        lemma_no_fault_before(heads, contents, (n - 1) as nat);
        assert(comes_out(heads[n - 1], contents[n - 1]));
    }
}

/// A genuinely encrypted zip is refused: where the first entry that does not come
/// out wants a password, unpacking ends with that.
pub proof fn encrypted_zips_are_refused(
    heads: Seq<Result<(Seq<char>, bool), (Option<Seq<char>>, Seq<char>)>>,
    contents: Seq<Result<Seq<u8>, Seq<char>>>,
    plain: Map<u64, Seq<u8>>,
    deep: bool,
    i: int,
)
    requires
        0 <= i < heads.len(),
        forall|j: int| 0 <= j < i ==> comes_out(#[trigger] heads[j], contents[j]),
        heads[i] matches Err(f) && f.0 matches Some(reason) && carries(reason, "Password"@),
    ensures
        unpacked(Form::Zip(heads, contents), plain, deep).ending == Err::<(nat, nat, nat), Fault>(
            Fault::Encrypted,
        ),
{
    lemma_fault_settles(heads, contents, i, heads.len());
}

/// A zip stores real names: nothing in it is recovered by a scan or written under
/// its hash.
pub proof fn zips_recover_nothing(a: Form, plain: Map<u64, Seq<u8>>, deep: bool)
    requires
        !(a is HashFs),
    ensures
        unpacked(a, plain, deep).ending matches Ok(n) ==> n.1 == 0 && n.2 == 0,
{
}

proof fn lemma_raw_entries(b: Seq<u8>, l: Listing, n: nat, i: int)
    requires
        0 <= i < n <= l.entries.len(),
        !"/"@.is_suffix_of(slashed(l.entries[i].name)),
        content(b, l.entries[i]) is Ok,
    ensures
        with_raw_entries(b, l, n).items.contains(
            ItemView { path: safe_path(l.entries[i].name), what: What::Index(i as usize) },
        ),
    decreases n,
{
    let s = with_raw_entries(b, l, (n - 1) as nat);
    let r = with_raw_entries(b, l, n);
    let x = ItemView { path: safe_path(l.entries[i].name), what: What::Index(i as usize) };
    if i == n - 1 {
        assert(r.items[r.items.len() - 1] == x);
    } else {
        lemma_raw_entries(b, l, (n - 1) as nat, i);
        let k = s.items.index_of(x);
        assert(r.items[k] == x);
    }
}

proof fn lemma_raw_goes_on(b: Seq<u8>, l: Listing, n: nat)
    ensures
        with_raw_entries(b, l, n).fault is None,
    decreases n,
{
    if n > 0 {
        lemma_raw_goes_on(b, l, (n - 1) as nat);
    }
}

/// One unreadable entry of a falsely locked zip loses no other: unpacking never
/// fails, and every file that can be read comes out.
pub proof fn one_unreadable_entry_loses_no_other(
    b: Seq<u8>,
    l: Listing,
    plain: Map<u64, Seq<u8>>,
    deep: bool,
    i: int,
)
    requires
        0 <= i < l.entries.len(),
        !"/"@.is_suffix_of(slashed(l.entries[i].name)),
        content(b, l.entries[i]) is Ok,
    ensures
        unpacked(Form::RawZip(b, l), plain, deep).ending is Ok,
        unpacked(Form::RawZip(b, l), plain, deep).items.contains(
            ItemView { path: safe_path(l.entries[i].name), what: What::Index(i as usize) },
        ),
{
    lemma_raw_entries(b, l, l.entries.len(), i);
    lemma_raw_goes_on(b, l, l.entries.len());
}

} // verus!
