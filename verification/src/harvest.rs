//! Finding names inside data: the paths a file mentions, and what kind of file
//! an unnamed blob is.

use crate::bytes::{at, stands_at};
use crate::text::{
    before_suffix, cat3, chars_of, from_utf8, last_of, lemma_last_of, lower, lowered, parts,
    pieces, rfind_char, rhalves, rsplit_once, split, string_of, strip_suffix, texts, trim_back,
    unroot, unrooted, back_trimmed, Class,
};
use vstd::hash_set::StringHashSet;
use vstd::prelude::*;

verus! {

// ---------------------------------------------------------------- names ---

/// Names in the order they came, each once.
pub struct Names {
    pub list: Vec<String>,
    pub set: StringHashSet,
}

impl View for Names {
    type V = Seq<Seq<char>>;

    open spec fn view(&self) -> Seq<Seq<char>> {
        texts(self.list@)
    }
}

/// `s` with `x` behind it, unless it is there already.
pub open spec fn adding(s: Seq<Seq<char>>, x: Seq<char>) -> Seq<Seq<char>> {
    if s.contains(x) {
        s
    } else {
        s.push(x)
    }
}

pub open spec fn adding_all(s: Seq<Seq<char>>, xs: Seq<Seq<char>>) -> Seq<Seq<char>>
    decreases xs.len(),
{
    if xs.len() == 0 {
        s
    } else {
        adding(adding_all(s, xs.drop_last()), xs.last())
    }
}

impl Names {
    pub open spec fn wf(self) -> bool {
        &&& self@.no_duplicates()
        &&& forall|x: Seq<char>| #[trigger] self.set@.contains(x) <==> self@.contains(x)
    }

    pub fn new() -> (r: Names)
        ensures
            r.wf(),
            r@ == Seq::<Seq<char>>::empty(),
    {
        let r = Names { list: Vec::new(), set: StringHashSet::new() };
        assert(r@ =~= Seq::<Seq<char>>::empty());
        r
    }

    pub fn has(&self, x: &str) -> (r: bool)
        requires
            self.wf(),
        ensures
            r == self@.contains(x@),
    {
        self.set.contains(x)
    }

    /// Adds a name; says whether it is new.
    pub fn add(&mut self, x: &str) -> (r: bool)
        requires
            old(self).wf(),
        ensures
            final(self).wf(),
            final(self)@ == adding(old(self)@, x@),
            r == !old(self)@.contains(x@),
    {
        if self.set.contains(x) {
            return false;
        }
        let ghost before = self@;
        self.list.push(x.to_owned());
        self.set.insert(x.to_owned());
        assert(self@ =~= before.push(x@));
        proof {
            lemma_pushed(before, x@);
        }
        true
    }

    pub fn add_all(&mut self, v: &Vec<String>)
        requires
            old(self).wf(),
        ensures
            final(self).wf(),
            final(self)@ == adding_all(old(self)@, texts(v@)),
    {
        let mut i: usize = 0;
        let ghost all = texts(v@);
        let ghost start = self@;
        while i < v.len()
            invariant
                i <= v@.len(),
                all == texts(v@),
                self.wf(),
                self@ == adding_all(start, all.take(i as int)),
            decreases v@.len() - i,
        {
            assert(all.take(i + 1).drop_last() =~= all.take(i as int));
            self.add(v[i].as_str());
            i = i + 1;
        }
        assert(all.take(i as int) =~= all);
    }
}

pub proof fn lemma_pushed(s: Seq<Seq<char>>, x: Seq<char>)
    ensures
        forall|y: Seq<char>| #[trigger] s.push(x).contains(y) <==> s.contains(y) || y == x,
{
    assert forall|y: Seq<char>| #[trigger] s.push(x).contains(y) <==> s.contains(y) || y == x by {
        if s.contains(y) {
            let i = s.index_of(y);
            assert(s.push(x)[i] == y);
        }
        assert(s.push(x)[s.len() as int] == x);
        if s.push(x).contains(y) && y != x {
            let i = s.push(x).index_of(y);
            assert(s[i] == y);
        }
    }
}

/// Adding names loses none, adds all of them and nothing else, and keeps them
/// apart.
pub proof fn adding_all_gives_both(s: Seq<Seq<char>>, xs: Seq<Seq<char>>)
    ensures
        forall|y: Seq<char>| #[trigger]
            adding_all(s, xs).contains(y) <==> s.contains(y) || xs.contains(y),
        s.no_duplicates() ==> adding_all(s, xs).no_duplicates(),
    decreases xs.len(),
{
    if xs.len() > 0 {
        adding_all_gives_both(s, xs.drop_last());
        assert(xs =~= xs.drop_last().push(xs.last()));
        lemma_pushed(xs.drop_last(), xs.last());
        lemma_pushed(adding_all(s, xs.drop_last()), xs.last());
    }
}

// ------------------------------------------------------------- families ---

pub open spec fn sibling(i: int) -> Seq<char> {
    if i == 0 {
        "pmg"@
    } else if i == 1 {
        "pmd"@
    } else if i == 2 {
        "pmc"@
    } else if i == 3 {
        "pma"@
    } else if i == 4 {
        "pms"@
    } else if i == 5 {
        "pit"@
    } else if i == 6 {
        "pis"@
    } else if i == 7 {
        "tobj"@
    } else {
        "dds"@
    }
}

fn sibling_ext(i: usize) -> (r: &'static str)
    ensures
        r@ == sibling(i as int),
{
    if i == 0 {
        "pmg"
    } else if i == 1 {
        "pmd"
    } else if i == 2 {
        "pmc"
    } else if i == 3 {
        "pma"
    } else if i == 4 {
        "pms"
    } else if i == 5 {
        "pit"
    } else if i == 6 {
        "pis"
    } else if i == 7 {
        "tobj"
    } else {
        "dds"
    }
}

/// The files that may stand beside each other under one stem.
pub open spec fn family(stem: Seq<char>) -> Seq<Seq<char>> {
    Seq::new(9, |i: int| stem + "."@ + sibling(i))
}

fn push_family(stem: &str, out: &mut Vec<String>)
    ensures
        texts(final(out)@) == texts(old(out)@) + family(stem@),
{
    let ghost start = texts(out@);
    let mut i: usize = 0;
    while i < 9
        invariant
            i <= 9,
            texts(out@) =~= start + family(stem@).take(i as int),
        decreases 9 - i,
    {
        let ghost before = texts(out@);
        out.push(cat3(stem, ".", sibling_ext(i)));
        assert(texts(out@) =~= before.push(family(stem@)[i as int]));
        i = i + 1;
    }
    assert(family(stem@).take(9) =~= family(stem@));
}

/// A reference names one member of a family; the others stand beside it.
pub open spec fn relatives(t: Seq<char>) -> Seq<Seq<char>> {
    match rhalves(t, '.') {
        Some(h) => family(h.0),
        None => Seq::empty(),
    }
}

fn push_relatives(t: &[char], out: &mut Vec<String>)
    ensures
        texts(final(out)@) == texts(old(out)@) + relatives(t@),
{
    match rsplit_once(t, '.') {
        Some((stem, _)) => {
            push_family(string_of(stem).as_str(), out);
        },
        None => {
            assert(texts(out@) + Seq::<Seq<char>>::empty() =~= texts(out@));
        },
    }
}

/// The folder part of a path, with its slash.
pub open spec fn folder(t: Seq<char>) -> Seq<char> {
    match last_of(t, '/') {
        Some(i) => t.take(i + 1),
        None => Seq::empty(),
    }
}

/// The model folder, where `t` is a file in its `materials` folder.
pub open spec fn model_folder(t: Seq<char>) -> Option<Seq<char>> {
    before_suffix(back_trimmed(folder(t), Class::Is('/')), "/materials"@)
}

/// The `n`-th piece of a path from its end; empty where there is none.
pub open spec fn from_end(p: Seq<char>, n: int) -> Seq<char> {
    let v = pieces(p, '/');
    if v.len() > n {
        v[v.len() - 1 - n]
    } else {
        Seq::empty()
    }
}

pub open spec fn family_in(parent: Seq<char>, stem: Seq<char>) -> Seq<Seq<char>> {
    if stem.len() == 0 {
        Seq::empty()
    } else {
        family(parent + "/"@ + stem)
    }
}

/// The models that a material in `parent`'s `materials` folder may belong to: a
/// model is often named after its folder.
pub open spec fn models_of(parent: Seq<char>) -> Seq<Seq<char>> {
    family_in(parent, from_end(parent, 0)) + family_in(parent, from_end(parent, 1)) + family_in(
        parent,
        "model"@,
    ) + family_in(parent, "body"@)
}

fn piece_from_end<'a>(p: &'a [char], n: usize) -> (r: &'a [char])
    ensures
        r@ == from_end(p@, n as int),
{
    let v = split(p, '/');
    if v.len() > n {
        let i: usize = v.len() - 1 - n;
        assert(parts(v@)[i as int] == v@[i as int]@);
        v[i]
    } else {
        let r = &p[0..0];
        assert(r@ =~= Seq::<char>::empty());
        r
    }
}

fn push_family_in(parent: &[char], stem: &[char], out: &mut Vec<String>)
    ensures
        texts(final(out)@) == texts(old(out)@) + family_in(parent@, stem@),
{
    if stem.len() == 0 {
        assert(texts(out@) + Seq::<Seq<char>>::empty() =~= texts(out@));
    } else {
        let s = cat3(string_of(parent).as_str(), "/", string_of(stem).as_str());
        push_family(s.as_str(), out);
    }
}

fn push_models(t: &[char], out: &mut Vec<String>)
    ensures
        texts(final(out)@) == texts(old(out)@) + (match model_folder(t@) {
            Some(parent) => models_of(parent),
            None => Seq::empty(),
        }),
{
    proof {
        lemma_last_of(t@, '/');
    }
    let len: usize = t.len();
    let n: usize = match rfind_char(t, '/') {
        Some(i) => i + 1,
        None => 0,
    };
    let dir = &t[0..n];
    assert(dir@ =~= folder(t@));
    match strip_suffix(trim_back(dir, Class::Is('/')), "/materials") {
        None => {
            assert(texts(out@) + Seq::<Seq<char>>::empty() =~= texts(out@));
        },
        Some(parent) => {
            let ghost start = texts(out@);
            let model = chars_of("model");
            let body = chars_of("body");
            push_family_in(parent, piece_from_end(parent, 0), out);
            push_family_in(parent, piece_from_end(parent, 1), out);
            push_family_in(parent, model.as_slice(), out);
            push_family_in(parent, body.as_slice(), out);
            assert(texts(out@) =~= start + models_of(parent@));
        },
    }
}

/// The names that one token stands for. A token without a leading slash may be
/// relative to the folder of the file that contains it.
pub open spec fn mentions(token: Seq<char>, owner: Seq<char>) -> Seq<Seq<char>> {
    let t = lowered(unrooted(token));
    let near = owner + "/"@ + t;
    if t.len() == 0 {
        Seq::empty()
    } else {
        seq![t] + relatives(t) + (match model_folder(t) {
            Some(parent) => models_of(parent),
            None => Seq::empty(),
        }) + (if owner.len() > 0 && !(token.len() > 0 && token[0] == '/') {
            seq![near] + relatives(near)
        } else {
            Seq::empty()
        })
    }
}

fn mentioned(token: &[char], owner: &str) -> (r: Vec<String>)
    ensures
        texts(r@) == mentions(token@, owner@),
{
    let mut r: Vec<String> = Vec::new();
    let t = lower(unroot(token));
    if t.len() == 0 {
        assert(texts(r@) =~= Seq::<Seq<char>>::empty());
        return r;
    }
    let text = string_of(t.as_slice());
    let near = cat3(owner, "/", text.as_str());
    let near_chars = chars_of(near.as_str());
    let own = chars_of(owner);
    r.push(text);
    assert(texts(r@) =~= seq![t@]);
    push_relatives(t.as_slice(), &mut r);
    push_models(t.as_slice(), &mut r);
    let ghost so_far = texts(r@);
    if own.len() > 0 && !(token.len() > 0 && token[0] == '/') {
        r.push(near);
        assert(texts(r@) =~= so_far + seq![near@]);
        push_relatives(near_chars.as_slice(), &mut r);
        assert(texts(r@) =~= so_far + (seq![near@] + relatives(near@)));
    } else {
        assert(texts(r@) =~= so_far + Seq::<Seq<char>>::empty());
    }
    r
}

// --------------------------------------------------------------- tokens ---

/// The bytes that paths are made of.
pub open spec fn path_byte(b: u8) -> bool {
    ||| b == 0x2f
    ||| b == 0x2e
    ||| b == 0x5f
    ||| b == 0x2d
    ||| 0x30 <= b <= 0x39
    ||| 0x41 <= b <= 0x5a
    ||| 0x61 <= b <= 0x7a
}

fn is_path_byte(b: u8) -> (r: bool)
    ensures
        r == path_byte(b),
{
    b == 0x2f || b == 0x2e || b == 0x5f || b == 0x2d || (0x30 <= b && b <= 0x39) || (0x41 <= b
        && b <= 0x5a) || (0x61 <= b && b <= 0x7a)
}

/// The run of path bytes that `data` ends with.
pub open spec fn open_run(data: Seq<u8>) -> Seq<u8>
    decreases data.len(),
{
    if data.len() == 0 || !path_byte(data.last()) {
        Seq::empty()
    } else {
        open_run(data.drop_last()).push(data.last())
    }
}

/// The runs of path bytes that something else follows.
pub open spec fn runs(data: Seq<u8>) -> Seq<Seq<u8>>
    decreases data.len(),
{
    if data.len() == 0 {
        Seq::empty()
    } else if path_byte(data.last()) {
        runs(data.drop_last())
    } else {
        runs(data.drop_last()).push(open_run(data.drop_last()))
    }
}

/// Whether a run may be a path: long enough, with a dot, and with a slash
/// unless it can be relative.
pub open spec fn path_like(run: Seq<u8>, owned: bool) -> bool {
    run.len() > 4 && run.contains(0x2e) && (run.contains(0x2f) || owned)
}

pub open spec fn ascii(b: Seq<u8>) -> Seq<char> {
    Seq::new(b.len(), |i: int| b[i] as char)
}

pub open spec fn mentions_of(run: Seq<u8>, owner: Seq<char>) -> Seq<Seq<char>> {
    if path_like(run, owner.len() > 0) {
        mentions(ascii(run), owner)
    } else {
        Seq::empty()
    }
}

pub open spec fn mentions_in(runs: Seq<Seq<u8>>, owner: Seq<char>) -> Seq<Seq<char>>
    decreases runs.len(),
{
    if runs.len() == 0 {
        Seq::empty()
    } else {
        mentions_in(runs.drop_last(), owner) + mentions_of(runs.last(), owner)
    }
}

fn chars_of_ascii(b: &[u8]) -> (r: Vec<char>)
    ensures
        r@ == ascii(b@),
{
    let mut r: Vec<char> = Vec::new();
    let mut i: usize = 0;
    while i < b.len()
        invariant
            i <= b@.len(),
            r@ =~= ascii(b@.take(i as int)),
        decreases b@.len() - i,
    {
        r.push(b[i] as char);
        i = i + 1;
    }
    assert(b@.take(i as int) =~= b@);
    r
}

fn holds_byte(b: &[u8], c: u8) -> (r: bool)
    ensures
        r == b@.contains(c),
{
    let mut i: usize = 0;
    while i < b.len()
        invariant
            i <= b@.len(),
            forall|j: int| 0 <= j < i ==> b@[j] != c,
        decreases b@.len() - i,
    {
        if b[i] == c {
            assert(b@[i as int] == c);
            return true;
        }
        i = i + 1;
    }
    false
}

fn mentioned_by(run: &[u8], owner: &str) -> (r: Vec<String>)
    ensures
        texts(r@) == mentions_of(run@, owner@),
{
    let own = chars_of(owner);
    if run.len() > 4 && holds_byte(run, 0x2e) && (holds_byte(run, 0x2f) || own.len() > 0) {
        let c = chars_of_ascii(run);
        mentioned(c.as_slice(), owner)
    } else {
        let r: Vec<String> = Vec::new();
        assert(texts(r@) =~= Seq::<Seq<char>>::empty());
        r
    }
}

/// Every name that the runs of `data`, closed by an end mark, stand for.
pub open spec fn spoken(data: Seq<u8>, owner: Seq<char>) -> Seq<Seq<char>> {
    mentions_in(runs(data.push(0)), owner)
}

proof fn lemma_adding_concat(s: Seq<Seq<char>>, a: Seq<Seq<char>>, b: Seq<Seq<char>>)
    ensures
        adding_all(adding_all(s, a), b) == adding_all(s, a + b),
    decreases b.len(),
{
    if b.len() == 0 {
        assert(a + b =~= a);
    } else {
        lemma_adding_concat(s, a, b.drop_last());
        assert((a + b).drop_last() =~= a + b.drop_last());
    }
}

fn add_spoken(data: &[u8], owner: &str, out: &mut Names)
    requires
        old(out).wf(),
    ensures
        final(out).wf(),
        final(out)@ == adding_all(old(out)@, spoken(data@, owner@)),
{
    let ghost start = out@;
    let ghost d = data@;
    // where the open run began
    let mut from: usize = 0;
    let mut i: usize = 0;
    let ghost mut said: Seq<Seq<char>> = Seq::empty();
    assert(data@.subrange(0, 0) =~= Seq::<u8>::empty());
    assert(d.take(0) =~= Seq::<u8>::empty());
    while i < data.len()
        invariant
            from <= i <= d.len(),
            d == data@,
            out.wf(),
            said == mentions_in(runs(d.take(i as int)), owner@),
            out@ == adding_all(start, said),
            d.subrange(from as int, i as int) == open_run(d.take(i as int)),
        decreases d.len() - i,
    {
        assert(d.take(i + 1).drop_last() =~= d.take(i as int));
        if is_path_byte(data[i]) {
            assert(d.subrange(from as int, i + 1) =~= d.subrange(from as int, i as int).push(
                d[i as int],
            ));
        } else {
            let m = mentioned_by(&data[from..i], owner);
            out.add_all(&m);
            proof {
                let done = runs(d.take(i as int));
                let run = open_run(d.take(i as int));
                assert(done.push(run).drop_last() =~= done);
                lemma_adding_concat(start, said, mentions_of(run, owner@));
                said = said + mentions_of(run, owner@);
            }
            from = i + 1;
            assert(d.subrange(from as int, i + 1) =~= Seq::<u8>::empty());
        }
        i = i + 1;
    }
    assert(d.take(i as int) =~= d);
    let m = mentioned_by(&data[from..data.len()], owner);
    out.add_all(&m);
    proof {
        let done = runs(d);
        let run = open_run(d);
        assert(d.push(0).drop_last() =~= d);
        assert(done.push(run).drop_last() =~= done);
        lemma_adding_concat(start, said, mentions_of(run, owner@));
    }
}

// ---------------------------------------------------------------- icons ---

/// The first place at or after `from` where `p` stands.
pub open spec fn bytes_from(s: Seq<u8>, p: Seq<u8>, from: int) -> Option<int>
    decreases s.len() - from,
{
    if p.len() == 0 || from < 0 || from + p.len() > s.len() {
        None
    } else if stands_at(s, from, p) {
        Some(from)
    } else {
        bytes_from(s, p, from + 1)
    }
}

pub proof fn lemma_bytes_from(s: Seq<u8>, p: Seq<u8>, from: int)
    ensures
        bytes_from(s, p, from) matches Some(i) ==> from <= i && i + p.len() <= s.len()
            && p.len() > 0,
    decreases s.len() - from,
{
    if !(p.len() == 0 || from < 0 || from + p.len() > s.len()) && !stands_at(s, from, p) {
        lemma_bytes_from(s, p, from + 1);
    }
}

pub fn find(hay: &[u8], needle: &[u8], from: usize) -> (r: Option<usize>)
    ensures
        match r {
            Some(i) => bytes_from(hay@, needle@, from as int) == Some(i as int),
            None => bytes_from(hay@, needle@, from as int) is None,
        },
{
    if needle.len() == 0 || needle.len() > hay.len() {
        return None;
    }
    let last: usize = hay.len() - needle.len();
    let mut i: usize = from;
    while i <= last
        invariant
            from <= i,
            needle@.len() > 0,
            last == hay@.len() - needle@.len(),
            last < hay.len(),
            bytes_from(hay@, needle@, from as int) == bytes_from(hay@, needle@, i as int),
        decreases last + 1 - i,
    {
        if at(hay, i, needle) {
            return Some(i);
        }
        i = i + 1;
    }
    None
}

/// The first place at or after `j` without a blank or a tab.
pub open spec fn past_blanks(d: Seq<u8>, j: int) -> int
    decreases d.len() - j,
{
    if 0 <= j < d.len() && (d[j] == 0x20 || d[j] == 0x09) {
        past_blanks(d, j + 1)
    } else {
        j
    }
}

/// The first double quote or line feed at or after `j`, or the end.
pub open spec fn value_end(d: Seq<u8>, j: int) -> int
    decreases d.len() - j,
{
    if 0 <= j < d.len() && d[j] != 0x22 && d[j] != 0x0a {
        value_end(d, j + 1)
    } else {
        j
    }
}

/// The value that stands in double quotes at `j`, after blanks, in lower case.
/// One that is empty, too long, unclosed or no UTF-8 does not count.
pub open spec fn value_at(d: Seq<u8>, j: int) -> Option<Seq<char>> {
    let q = past_blanks(d, j);
    let end = value_end(d, q + 1);
    let s = d.subrange(q + 1, end);
    if q < d.len() && d[q] == 0x22 && end < d.len() && d[end] == 0x22 && 0 < s.len() < 128
        && vstd::utf8::valid_utf8(s) {
        Some(lowered(vstd::utf8::decode_utf8(s)))
    } else {
        None
    }
}

/// The values of the `key: "value"` pairs from `i` on.
pub open spec fn values_after(d: Seq<u8>, key: Seq<u8>, i: int) -> Seq<Seq<char>>
    decreases d.len() - i,
{
    match bytes_from(d, key, i) {
        None => Seq::empty(),
        Some(p) => {
            if p < i || key.len() == 0 || p + key.len() > d.len() {
                Seq::empty()
            } else {
                (match value_at(d, p + key.len()) {
                    Some(v) => seq![v],
                    None => Seq::empty(),
                }) + values_after(d, key, p + key.len())
            }
        },
    }
}

fn read_value(d: &[u8], from: usize) -> (r: Option<String>)
    requires
        from <= d.len(),
    ensures
        crate::text::opt_text(r) == value_at(d@, from as int),
{
    let mut j: usize = from;
    while j < d.len() && (d[j] == 0x20 || d[j] == 0x09)
        invariant
            from <= j <= d@.len(),
            past_blanks(d@, from as int) == past_blanks(d@, j as int),
        decreases d@.len() - j,
    {
        j = j + 1;
    }
    if j >= d.len() || d[j] != 0x22 {
        return None;
    }
    let start: usize = j + 1;
    let mut end: usize = start;
    while end < d.len() && d[end] != 0x22 && d[end] != 0x0a
        invariant
            start <= end <= d@.len(),
            value_end(d@, start as int) == value_end(d@, end as int),
        decreases d@.len() - end,
    {
        end = end + 1;
    }
    if end >= d.len() || d[end] != 0x22 {
        return None;
    }
    let s = &d[start..end];
    if s.len() == 0 || s.len() >= 128 {
        return None;
    }
    match from_utf8(s) {
        None => None,
        Some(t) => {
            let c = chars_of(t.as_str());
            let l = lower(c.as_slice());
            Some(string_of(l.as_slice()))
        },
    }
}

/// Values of `key: "value"` pairs in text formats.
pub fn find_quoted_after(data: &[u8], key: &[u8]) -> (r: Vec<String>)
    ensures
        texts(r@) == values_after(data@, key@, 0),
{
    let mut out: Vec<String> = Vec::new();
    let mut i: usize = 0;
    let mut next: Option<usize> = find(data, key, i);
    assert(texts(out@) =~= Seq::<Seq<char>>::empty());
    assert(texts(out@) + values_after(data@, key@, 0) =~= values_after(data@, key@, 0));
    while next.is_some()
        invariant
            i <= data@.len(),
            match next {
                Some(p) => bytes_from(data@, key@, i as int) == Some(p as int),
                None => bytes_from(data@, key@, i as int) is None,
            },
            texts(out@) + values_after(data@, key@, i as int) == values_after(data@, key@, 0),
        decreases data@.len() - i, (if next is Some { 1int } else { 0 }),
    {
        let p: usize = match next {
            Some(p) => p,
            None => 0,
        };
        proof {
            lemma_bytes_from(data@, key@, i as int);
        }
        let n: usize = data.len();
        assert(p + key@.len() <= n);
        let after: usize = p + key.len();
        let ghost before = texts(out@);
        let ghost rest = values_after(data@, key@, after as int);
        match read_value(data, after) {
            Some(v) => {
                out.push(v);
                assert(texts(out@) =~= before.push(v@));
                assert(before.push(v@) + rest =~= before + (seq![v@] + rest));
            },
            None => {
                assert(before + rest =~= before + (Seq::<Seq<char>>::empty() + rest));
            },
        }
        i = after;
        next = find(data, key, i);
    }
    assert(texts(out@) + Seq::<Seq<char>>::empty() =~= texts(out@));
    out
}

/// Where the icon `m` of a user interface may stand.
pub open spec fn icon_files(m: Seq<char>) -> Seq<Seq<char>> {
    seq![
        "material/ui/accessory/"@ + m + ".mat"@,
        "material/ui/"@ + m + ".mat"@,
        "material/ui/accessory/"@ + m + ".tobj"@,
        "material/ui/"@ + m + ".tobj"@,
        "material/ui/accessory/"@ + m + ".dds"@,
        "material/ui/"@ + m + ".dds"@,
    ]
}

pub open spec fn icons(v: Seq<Seq<char>>) -> Seq<Seq<char>>
    decreases v.len(),
{
    if v.len() == 0 {
        Seq::empty()
    } else {
        icons(v.drop_last()) + icon_files(v.last())
    }
}

fn icon_paths(v: &Vec<String>) -> (r: Vec<String>)
    ensures
        texts(r@) == icons(texts(v@)),
{
    let mut r: Vec<String> = Vec::new();
    let mut i: usize = 0;
    let ghost all = texts(v@);
    assert(texts(r@) =~= icons(all.take(0)));
    while i < v.len()
        invariant
            i <= v@.len(),
            all == texts(v@),
            texts(r@) == icons(all.take(i as int)),
        decreases v@.len() - i,
    {
        assert(all.take(i + 1).drop_last() =~= all.take(i as int));
        let m = v[i].as_str();
        let ghost before = texts(r@);
        r.push(cat3("material/ui/accessory/", m, ".mat"));
        r.push(cat3("material/ui/", m, ".mat"));
        r.push(cat3("material/ui/accessory/", m, ".tobj"));
        r.push(cat3("material/ui/", m, ".tobj"));
        r.push(cat3("material/ui/accessory/", m, ".dds"));
        r.push(cat3("material/ui/", m, ".dds"));
        assert(texts(r@) =~= before + icon_files(m@));
        i = i + 1;
    }
    assert(all.take(i as int) =~= all);
    r
}

/// `icon:`
pub open spec fn icon_key() -> Seq<u8> {
    seq![0x69u8, 0x63u8, 0x6fu8, 0x6eu8, 0x3au8]
}

/// Everything that `data`, a file in the folder `owner`, may be naming.
pub open spec fn harvested(data: Seq<u8>, owner: Seq<char>) -> Seq<Seq<char>> {
    spoken(data, owner) + icons(values_after(data, icon_key(), 0))
}

/// Pull plausible archive paths out of a blob. Text formats reference other
/// files as `/dir/file.ext`, which is exactly what the entry table is keyed by
/// once the leading slash is removed. `icon: "g7_000"` names a UI icon, not a
/// path; the file lives in a fixed location.
pub fn harvest_paths(data: &[u8], owner_dir: &str, out: &mut Names)
    requires
        old(out).wf(),
    ensures
        final(out).wf(),
        final(out)@ == adding_all(old(out)@, harvested(data@, owner_dir@)),
{
    let ghost start = out@;
    add_spoken(data, owner_dir, out);
    let mut key: Vec<u8> = Vec::new();
    key.push(0x69);
    key.push(0x63);
    key.push(0x6f);
    key.push(0x6e);
    key.push(0x3a);
    assert(key@ =~= icon_key());
    let v = find_quoted_after(data, key.as_slice());
    let w = icon_paths(&v);
    out.add_all(&w);
    proof {
        lemma_adding_concat(start, spoken(data@, owner_dir@), icons(values_after(data@, key@, 0)));
    }
}

// ---------------------------------------------------------------- kinds ---

pub open spec fn four(d: Seq<u8>, o: int, a: u8, b: u8, c: u8, e: u8) -> bool {
    d.len() >= o + 4 && d[o] == a && d[o + 1] == b && d[o + 2] == c && d[o + 3] == e
}

pub open spec fn three(d: Seq<u8>, o: int, a: u8, b: u8, c: u8) -> bool {
    d.len() >= o + 3 && d[o] == a && d[o + 1] == b && d[o + 2] == c
}

pub(crate) fn has_four(d: &[u8], o: usize, a: u8, b: u8, c: u8, e: u8) -> (r: bool)
    requires
        o <= 100,
    ensures
        r == four(d@, o as int, a, b, c, e),
{
    d.len() >= o + 4 && d[o] == a && d[o + 1] == b && d[o + 2] == c && d[o + 3] == e
}

fn has_three(d: &[u8], o: usize, a: u8, b: u8, c: u8) -> (r: bool)
    requires
        o <= 100,
    ensures
        r == three(d@, o as int, a, b, c),
{
    d.len() >= o + 3 && d[o] == a && d[o + 1] == b && d[o + 2] == c
}

/// The extension that the first bytes of a file speak for. Model formats put a
/// version byte first, then the tag backwards. RIFF is a container: only its
/// WAVE flavour is audio.
pub open spec fn kind_of(d: Seq<u8>) -> Seq<char> {
    if four(d, 0, 0x44, 0x44, 0x53, 0x20) {
        ".dds"@
    } else if three(d, 0, 0xff, 0xd8, 0xff) {
        ".jpg"@
    } else if four(d, 0, 0x89, 0x50, 0x4e, 0x47) {
        ".png"@
    } else if three(d, 1, 0x67, 0x6d, 0x50) {
        ".pmg"@
    } else if three(d, 1, 0x64, 0x6d, 0x50) {
        ".pmd"@
    } else if three(d, 1, 0x63, 0x6d, 0x50) {
        ".pmc"@
    } else if three(d, 1, 0x61, 0x6d, 0x50) {
        ".pma"@
    } else if three(d, 1, 0x73, 0x6d, 0x50) {
        ".pms"@
    } else if three(d, 1, 0x70, 0x6d, 0x50) {
        ".ppd"@
    } else if four(d, 0, 0x4f, 0x67, 0x67, 0x53) {
        ".ogg"@
    } else if four(d, 0, 0x52, 0x49, 0x46, 0x46) && four(d, 8, 0x57, 0x41, 0x56, 0x45) {
        ".wav"@
    } else if four(d, 0, 0x52, 0x49, 0x46, 0x58) || four(d, 0, 0x46, 0x53, 0x42, 0x35) {
        ".bank"@
    } else if four(d, 0, 0x42, 0x53, 0x49, 0x49) || four(d, 0, 0x53, 0x63, 0x73, 0x43) || three(
        d,
        0,
        0x33,
        0x6e,
        0x4b,
    ) || (four(d, 0, 0x53, 0x69, 0x69, 0x4e) && four(d, 4, 0x75, 0x6e, 0x69, 0x74)) {
        ".sii"@
    } else if four(d, 0, 0x6d, 0x61, 0x74, 0x65) && four(d, 4, 0x72, 0x69, 0x61, 0x6c) {
        ".mat"@
    } else if four(d, 0, 0x6d, 0x61, 0x70, 0x20) || (d.len() >= 2 && d[0] == 1 && d[1] == 0x0a) {
        ".tobj"@
    } else {
        ".bin"@
    }
}

/// Name a blob that nothing gives a path for, by what it contains.
pub fn sniff_extension(d: &[u8]) -> (r: &'static str)
    ensures
        r@ == kind_of(d@),
{
    if has_four(d, 0, 0x44, 0x44, 0x53, 0x20) {
        ".dds"
    } else if has_three(d, 0, 0xff, 0xd8, 0xff) {
        ".jpg"
    } else if has_four(d, 0, 0x89, 0x50, 0x4e, 0x47) {
        ".png"
    } else if has_three(d, 1, 0x67, 0x6d, 0x50) {
        ".pmg"
    } else if has_three(d, 1, 0x64, 0x6d, 0x50) {
        ".pmd"
    } else if has_three(d, 1, 0x63, 0x6d, 0x50) {
        ".pmc"
    } else if has_three(d, 1, 0x61, 0x6d, 0x50) {
        ".pma"
    } else if has_three(d, 1, 0x73, 0x6d, 0x50) {
        ".pms"
    } else if has_three(d, 1, 0x70, 0x6d, 0x50) {
        ".ppd"
    } else if has_four(d, 0, 0x4f, 0x67, 0x67, 0x53) {
        ".ogg"
    } else if has_four(d, 0, 0x52, 0x49, 0x46, 0x46) && has_four(d, 8, 0x57, 0x41, 0x56, 0x45) {
        ".wav"
    } else if has_four(d, 0, 0x52, 0x49, 0x46, 0x58) || has_four(d, 0, 0x46, 0x53, 0x42, 0x35) {
        ".bank"
    } else if has_four(d, 0, 0x42, 0x53, 0x49, 0x49) || has_four(d, 0, 0x53, 0x63, 0x73, 0x43)
        || has_three(d, 0, 0x33, 0x6e, 0x4b) || (has_four(d, 0, 0x53, 0x69, 0x69, 0x4e)
        && has_four(d, 4, 0x75, 0x6e, 0x69, 0x74)) {
        ".sii"
    } else if has_four(d, 0, 0x6d, 0x61, 0x74, 0x65) && has_four(d, 4, 0x72, 0x69, 0x61, 0x6c) {
        ".mat"
    } else if has_four(d, 0, 0x6d, 0x61, 0x70, 0x20) || (d.len() >= 2 && d[0] == 1 && d[1]
        == 0x0a) {
        ".tobj"
    } else {
        ".bin"
    }
}

} // verus!
