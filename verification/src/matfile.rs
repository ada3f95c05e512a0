//! What the `.mat` files of an archive say: the textures they refer to, which of
//! them are normal maps, and the shader. Also the little that is needed of the
//! `.tobj` files they name, and the stand-ins for textures that are not there.

use crate::text::{
    after_prefix, begins, carries, cat, cat3, chars_of, dedup, ends, front_trimmed, halves,
    has_char, holds, join, joined, lines, lower, lowered, nth_piece, number, opt_text, ordered,
    piece, read_number, same_str, sort, split_lines, split_once, string_of, strip_prefix, texts,
    trim, trim_front, trim_suffixes, trimmed, unrepeated, unroot, unrooted, without_suffixes,
    write_usize, Class, decimal,
};
use crate::tree::{base_of, base_text};
use vstd::prelude::*;

verus! {

// ------------------------------------------------------------- mentions ---

/// The texture that a line of a `.mat` refers to. Blank entries and bare folders
/// refer to none.
pub open spec fn mentioned_on(line: Seq<char>) -> Option<Seq<char>> {
    let l = trimmed(line);
    if after_prefix(l, "texture["@) is None {
        None
    } else {
        match piece(l, '"', 1) {
            None => None,
            Some(q) => {
                let v = trimmed(q);
                if utf8_len(v) > 3 && v.contains('/') && !"/"@.is_suffix_of(v) {
                    Some(v)
                } else {
                    None
                }
            },
        }
    }
}

/// How many bytes of UTF-8 a character takes.
pub open spec fn utf8_width(c: char) -> nat {
    let n = c as u32;
    if n < 0x80 {
        1
    } else if n < 0x800 {
        2
    } else if n < 0x1_0000 {
        3
    } else {
        4
    }
}

/// How many bytes of UTF-8 a text takes.
pub open spec fn utf8_len(s: Seq<char>) -> nat
    decreases s.len(),
{
    if s.len() == 0 {
        0
    } else {
        utf8_len(s.drop_last()) + utf8_width(s.last())
    }
}

fn longer_than_three(s: &[char]) -> (r: bool)
    ensures
        r == (utf8_len(s@) > 3),
{
    let mut n: u32 = 0;
    let mut i: usize = 0;
    assert(s@.take(0) =~= Seq::<char>::empty());
    while i < s.len()
        invariant
            i <= s@.len(),
            n <= 3,
            n == utf8_len(s@.take(i as int)),
        decreases s@.len() - i,
    {
        assert(s@.take(i + 1).drop_last() =~= s@.take(i as int));
        let c: u32 = s[i] as u32;
        let w: u32 = if c < 0x80 {
            1
        } else if c < 0x800 {
            2
        } else if c < 0x1_0000 {
            3
        } else {
            4
        };
        n = n + w;
        if n > 3 {
            proof {
                lemma_utf8_len_grows(s@, i + 1);
            }
            return true;
        }
        i = i + 1;
    }
    assert(s@.take(i as int) =~= s@);
    false
}

proof fn lemma_utf8_len_grows(s: Seq<char>, k: int)
    requires
        0 <= k <= s.len(),
    ensures
        utf8_len(s.take(k)) <= utf8_len(s),
    decreases s.len(),
{
    if k < s.len() {
        lemma_utf8_len_grows(s.drop_last(), k);
        assert(s.drop_last().take(k) =~= s.take(k));
    } else {
        assert(s.take(k) =~= s);
    }
}

/// The textures that the lines of a `.mat` refer to.
pub open spec fn mentioned(ls: Seq<Seq<char>>) -> Seq<Seq<char>>
    decreases ls.len(),
{
    if ls.len() == 0 {
        Seq::empty()
    } else {
        let r = mentioned(ls.drop_last());
        match mentioned_on(ls.last()) {
            Some(t) => r.push(t),
            None => r,
        }
    }
}

fn mention_on(line: &[char]) -> (r: Option<String>)
    ensures
        opt_text(r) == mentioned_on(line@),
{
    let l = trim(line);
    if !begins(l, "texture[") {
        return None;
    }
    match nth_piece(l, '"', 1) {
        None => None,
        Some(q) => {
            let v = trim(q);
            if longer_than_three(v) && has_char(v, '/') && !ends(v, "/") {
                Some(string_of(v))
            } else {
                None
            }
        },
    }
}

/// The textures that the text of a `.mat` refers to.
pub fn mentions(text: &str) -> (r: Vec<String>)
    ensures
        texts(r@) == mentioned(lines(text@)),
{
    let c = chars_of(text);
    let ls = split_lines(c.as_slice());
    let ghost all = lines(text@);
    let mut r: Vec<String> = Vec::new();
    let mut i: usize = 0;
    assert(all.take(0) =~= Seq::<Seq<char>>::empty());
    assert(texts(r@) =~= Seq::<Seq<char>>::empty());
    while i < ls.len()
        invariant
            i <= ls@.len(),
            crate::text::parts(ls@) == all,
            texts(r@) == mentioned(all.take(i as int)),
        decreases ls@.len() - i,
    {
        assert(all.take(i + 1).drop_last() =~= all.take(i as int));
        assert(all[i as int] == ls@[i as int]@);
        let ghost before = texts(r@);
        match mention_on(ls[i]) {
            Some(t) => {
                let ghost tv = t@;
                r.push(t);
                assert(texts(r@) =~= before.push(tv));
            },
            None => {},
        }
        i = i + 1;
    }
    assert(all.take(i as int) =~= all);
    r
}

/// A reference without its root and extension.
pub open spec fn bare(t: Seq<char>) -> Seq<char> {
    without_suffixes(unrooted(t), ".tobj"@)
}

pub open spec fn bare_all(v: Seq<Seq<char>>) -> Seq<Seq<char>> {
    Seq::new(v.len(), |i: int| bare(v[i]))
}

/// The textures that an archive refers to, from all the mentions: in order, each
/// once, without root and extension.
pub fn referenced(all: Vec<String>) -> (r: Vec<String>)
    ensures
        texts(r@) == bare_all(unrepeated(ordered(texts(all@)))),
{
    let v = dedup(sort(all));
    let mut r: Vec<String> = Vec::new();
    let mut i: usize = 0;
    let ghost want = bare_all(texts(v@));
    while i < v.len()
        invariant
            i <= v@.len(),
            want == bare_all(texts(v@)),
            texts(r@) =~= want.take(i as int),
        decreases v@.len() - i,
    {
        let ghost before = texts(r@);
        let c = chars_of(v[i].as_str());
        let s = string_of(trim_suffixes(unroot(c.as_slice()), ".tobj"));
        let ghost sv = s@;
        assert(texts(v@)[i as int] == v@[i as int]@);
        r.push(s);
        assert(texts(r@) =~= before.push(sv));
        i = i + 1;
    }
    assert(want.take(i as int) =~= want);
    r
}

// ---------------------------------------------------------- normal maps ---

/// A numbered entry of a `.mat`, behind its tag: `tag[3] : "value"`.
pub open spec fn entry_on(line: Seq<char>, tag: Seq<char>) -> Option<(nat, Seq<char>)> {
    match after_prefix(trimmed(line), tag) {
        None => None,
        Some(rest) => match halves(rest, ']') {
            None => None,
            Some(h) => match (number(h.0, 10, u64::MAX as nat), piece(h.1, '"', 1)) {
                (Some(n), Some(v)) => Some((n, v)),
                _ => None,
            },
        },
    }
}

/// The numbered entries with a tag. A line of the one kind is never one of the
/// other.
pub open spec fn entries(ls: Seq<Seq<char>>, tag: Seq<char>) -> Seq<(nat, Seq<char>)>
    decreases ls.len(),
{
    if ls.len() == 0 {
        Seq::empty()
    } else {
        let r = entries(ls.drop_last(), tag);
        match entry_on(ls.last(), tag) {
            Some(e) => r.push(e),
            None => r,
        }
    }
}

/// The value of the first entry with a number.
pub open spec fn numbered(v: Seq<(nat, Seq<char>)>, n: nat) -> Option<Seq<char>>
    decreases v.len(),
{
    if v.len() == 0 {
        None
    } else if v[0].0 == n {
        Some(v[0].1)
    } else {
        numbered(v.skip(1), n)
    }
}

/// The textures whose name says that they are normal maps.
pub open spec fn normals(
    names: Seq<(nat, Seq<char>)>,
    tex: Seq<(nat, Seq<char>)>,
) -> Seq<Seq<char>>
    decreases names.len(),
{
    if names.len() == 0 {
        Seq::empty()
    } else {
        let r = normals(names.drop_last(), tex);
        if names.last().1 == "texture_nmap"@ {
            match numbered(tex, names.last().0) {
                Some(t) => r.push(unrooted(t)),
                None => r,
            }
        } else {
            r
        }
    }
}

/// The normal maps of a `.mat`.
pub open spec fn normal_maps_in(text: Seq<char>) -> Seq<Seq<char>> {
    normals(entries(lines(text), "texture_name["@), entries(lines(text), "texture["@))
}

pub open spec fn entry_views(v: Seq<(u64, String)>) -> Seq<(nat, Seq<char>)> {
    Seq::new(v.len(), |i: int| (v[i].0 as nat, v[i].1@))
}

fn read_entry(line: &[char], tag: &str) -> (r: Option<(u64, String)>)
    ensures
        match r {
            Some(e) => entry_on(line@, tag@) == Some((e.0 as nat, e.1@)),
            None => entry_on(line@, tag@) is None,
        },
{
    match strip_prefix(trim(line), tag) {
        None => None,
        Some(rest) => match split_once(rest, ']') {
            None => None,
            Some(h) => match (read_number(h.0, 10, 0xffff_ffff_ffff_ffff), nth_piece(h.1, '"', 1)) {
                (Some(n), Some(v)) => Some((n, string_of(v))),
                _ => None,
            },
        },
    }
}

fn read_entries(ls: &Vec<&[char]>, tag: &str) -> (r: Vec<(u64, String)>)
    ensures
        entry_views(r@) == entries(crate::text::parts(ls@), tag@),
{
    let ghost all = crate::text::parts(ls@);
    let mut r: Vec<(u64, String)> = Vec::new();
    let mut i: usize = 0;
    assert(all.take(0) =~= Seq::<Seq<char>>::empty());
    assert(entry_views(r@) =~= Seq::<(nat, Seq<char>)>::empty());
    while i < ls.len()
        invariant
            i <= ls@.len(),
            all == crate::text::parts(ls@),
            entry_views(r@) == entries(all.take(i as int), tag@),
        decreases ls@.len() - i,
    {
        assert(all.take(i + 1).drop_last() =~= all.take(i as int));
        assert(all[i as int] == ls@[i as int]@);
        let ghost before = entry_views(r@);
        match read_entry(ls[i], tag) {
            Some(e) => {
                let ghost ev = (e.0 as nat, e.1@);
                r.push(e);
                assert(entry_views(r@) =~= before.push(ev));
            },
            None => {},
        }
        i = i + 1;
    }
    assert(all.take(i as int) =~= all);
    r
}

fn find_numbered<'a>(v: &'a Vec<(u64, String)>, n: u64) -> (r: Option<&'a str>)
    ensures
        crate::text::opt_str(r) == numbered(entry_views(v@), n as nat),
{
    let ghost all = entry_views(v@);
    let mut i: usize = 0;
    assert(all.skip(0) =~= all);
    while i < v.len()
        invariant
            i <= v@.len(),
            all == entry_views(v@),
            numbered(all.skip(i as int), n as nat) == numbered(all, n as nat),
        decreases v@.len() - i,
    {
        assert(all.skip(i as int)[0] == all[i as int]);
        if v[i].0 == n {
            return Some(v[i].1.as_str());
        }
        assert(all.skip(i as int).skip(1) =~= all.skip(i + 1));
        i = i + 1;
    }
    None
}

/// The paths of the normal maps that the text of a `.mat` names.
pub fn normal_maps(text: &str) -> (r: Vec<String>)
    ensures
        texts(r@) == normal_maps_in(text@),
{
    let c = chars_of(text);
    let ls = split_lines(c.as_slice());
    let names = read_entries(&ls, "texture_name[");
    let tex = read_entries(&ls, "texture[");
    let ghost nv = entry_views(names@);
    let ghost tv = entry_views(tex@);
    let mut r: Vec<String> = Vec::new();
    let mut i: usize = 0;
    assert(nv.take(0) =~= Seq::<(nat, Seq<char>)>::empty());
    assert(texts(r@) =~= Seq::<Seq<char>>::empty());
    while i < names.len()
        invariant
            i <= names@.len(),
            nv == entry_views(names@),
            tv == entry_views(tex@),
            texts(r@) == normals(nv.take(i as int), tv),
        decreases names@.len() - i,
    {
        assert(nv.take(i + 1).drop_last() =~= nv.take(i as int));
        assert(nv[i as int] == (names@[i as int].0 as nat, names@[i as int].1@));
        let ghost before = texts(r@);
        if same_str(names[i].1.as_str(), "texture_nmap") {
            match find_numbered(&tex, names[i].0) {
                Some(t) => {
                    let s = crate::text::unroot_str(t);
                    let ghost sv = s@;
                    r.push(s);
                    assert(texts(r@) =~= before.push(sv));
                },
                None => {},
            }
        }
        i = i + 1;
    }
    assert(nv.take(i as int) =~= nv);
    r
}

/// A `.tobj` text with a line behind that says what it is; nothing where it says
/// so already.
pub open spec fn marked(text: Seq<char>) -> Option<Seq<char>> {
    if carries(text, "usage"@) {
        None
    } else if "\n"@.is_suffix_of(text) {
        Some(text + "usage\ttsnormal\n"@)
    } else {
        Some(text + "\n"@ + "usage\ttsnormal\n"@)
    }
}

pub fn mark_normal_map(text: &str) -> (r: Option<String>)
    ensures
        opt_text(r) == marked(text@),
{
    let c = chars_of(text);
    if holds(c.as_slice(), "usage") {
        return None;
    }
    if ends(c.as_slice(), "\n") {
        Some(cat(text, "usage\ttsnormal\n"))
    } else {
        Some(cat3(text, "\n", "usage\ttsnormal\n"))
    }
}

/// Marking a normal map once is enough.
pub proof fn a_marked_map_stays_as_it_is(text: Seq<char>)
    ensures
        marked(text) matches Some(t) ==> marked(t) is None,
{
    if let Some(t) = marked(text) {
        reveal_strlit("usage");
        reveal_strlit("usage\ttsnormal\n");
        reveal_strlit("\n");
        let i = if "\n"@.is_suffix_of(text) {
            text.len() as int
        } else {
            text.len() + 1int
        };
        assert(t.subrange(i, i + 5) =~= "usage"@);
        assert(crate::text::occurs_at(t, "usage"@, i));
    }
}

// ----------------------------------------------------------- stand-ins ---

/// Textures that every mod refers to but none of them ships, since they live in
/// the base game, with the grey that stands in for each, in hundredths of white.
pub open spec fn usual_stand_ins() -> Seq<(Seq<char>, u8)> {
    seq![
        ("material/environment/vehicle_reflection"@, 25u8),
        ("material/environment/soft_reflection/soft_reflection"@, 25u8),
        ("material/environment/fuzzy_reflection/fuzzy_reflection"@, 20u8),
        ("material/environment/interior_reflection"@, 18u8),
        ("material/environment/brushed_reflection/brushed_reflection"@, 22u8),
        ("material/environment/generic_reflection"@, 25u8),
        ("material/environment/close_mirror_reflection"@, 45u8),
        ("material/environment/hood_mirror_reflection"@, 45u8),
        ("material/environment/far_mirror_reflection"@, 45u8),
        ("material/environment/far_s_mirror_reflection"@, 45u8),
        ("vehicle/truck/share/glass_ex"@, 72u8),
        ("vehicle/truck/share/glass_int"@, 72u8),
        ("vehicle/truck/share/dashboard"@, 35u8),
        ("vehicle/truck/share/gps"@, 35u8),
    ]
}

pub open spec fn stand_in_views(v: Seq<(String, u8)>) -> Seq<(Seq<char>, u8)> {
    Seq::new(v.len(), |i: int| (v[i].0@, v[i].1))
}

fn put(v: &mut Vec<(String, u8)>, path: &str, level: u8)
    ensures
        stand_in_views(final(v)@) == stand_in_views(old(v)@).push((path@, level)),
{
    let ghost was = stand_in_views(v@);
    v.push((path.to_owned(), level));
    assert(stand_in_views(v@) =~= was.push((path@, level)));
}

pub fn placeholders() -> (r: Vec<(String, u8)>)
    ensures
        stand_in_views(r@) == usual_stand_ins(),
{
    let mut r: Vec<(String, u8)> = Vec::new();
    put(&mut r, "material/environment/vehicle_reflection", 25);
    put(&mut r, "material/environment/soft_reflection/soft_reflection", 25);
    put(&mut r, "material/environment/fuzzy_reflection/fuzzy_reflection", 20);
    put(&mut r, "material/environment/interior_reflection", 18);
    put(&mut r, "material/environment/brushed_reflection/brushed_reflection", 22);
    put(&mut r, "material/environment/generic_reflection", 25);
    put(&mut r, "material/environment/close_mirror_reflection", 45);
    put(&mut r, "material/environment/hood_mirror_reflection", 45);
    put(&mut r, "material/environment/far_mirror_reflection", 45);
    put(&mut r, "material/environment/far_s_mirror_reflection", 45);
    put(&mut r, "vehicle/truck/share/glass_ex", 72);
    put(&mut r, "vehicle/truck/share/glass_int", 72);
    put(&mut r, "vehicle/truck/share/dashboard", 35);
    put(&mut r, "vehicle/truck/share/gps", 35);
    assert(stand_in_views(r@) =~= usual_stand_ins());
    r
}

/// Neutral grey for a texture that has to be made up, guessed from its name, in
/// hundredths of white.
pub open spec fn level_for(path: Seq<char>) -> u8 {
    let p = lowered(path);
    if carries(p, "mirror"@) {
        45
    } else if carries(p, "glass"@) || carries(p, "window"@) {
        72
    } else if carries(p, "reflection"@) || carries(p, "environment"@) {
        25
    } else if carries(p, "light"@) || carries(p, "lamp"@) || carries(p, "lum"@) {
        60
    } else {
        50
    }
}

pub fn placeholder_level(path: &str) -> (r: u8)
    ensures
        r == level_for(path@),
{
    let c = chars_of(path);
    let p = lower(c.as_slice());
    let s = p.as_slice();
    if holds(s, "mirror") {
        45
    } else if holds(s, "glass") || holds(s, "window") {
        72
    } else if holds(s, "reflection") || holds(s, "environment") {
        25
    } else if holds(s, "light") || holds(s, "lamp") || holds(s, "lum") {
        60
    } else {
        50
    }
}

/// The last names of the first three paths.
pub open spec fn first_names(v: Seq<Seq<char>>) -> Seq<Seq<char>> {
    Seq::new(
        if v.len() < 3 {
            v.len()
        } else {
            3
        },
        |i: int| base_of(v[i]),
    )
}

/// What is said of stand-ins that were made up, if any were.
pub open spec fn made_note(made: nat, missing: Seq<Seq<char>>) -> Option<Seq<char>> {
    if made == 0 {
        None
    } else {
        Some(
            decimal(made) + " more textures referenced but not shipped - filled in ("@ + joined(
                first_names(missing),
                ", "@,
            ) + "...)"@,
        )
    }
}

pub fn stand_in_note(made: usize, missing: &Vec<String>) -> (r: Option<String>)
    ensures
        opt_text(r) == made_note(made as nat, texts(missing@)),
{
    if made == 0 {
        return None;
    }
    let ghost want = first_names(texts(missing@));
    let mut names: Vec<String> = Vec::new();
    let mut i: usize = 0;
    while i < missing.len() && i < 3
        invariant
            i <= missing@.len(),
            i <= 3,
            want == first_names(texts(missing@)),
            texts(names@) =~= want.take(i as int),
        decreases missing@.len() - i,
    {
        let ghost before = texts(names@);
        let s = base_text(missing[i].as_str());
        let ghost sv = s@;
        assert(texts(missing@)[i as int] == missing@[i as int]@);
        names.push(s);
        assert(texts(names@) =~= before.push(sv));
        i = i + 1;
    }
    assert(want.take(i as int) =~= want);
    let a = cat3(
        write_usize(made).as_str(),
        " more textures referenced but not shipped - filled in (",
        join(&names, ", ").as_str(),
    );
    Some(cat(a.as_str(), "...)"))
}

// -------------------------------------------------------------- shaders ---

/// The first line that begins with a tag.
pub open spec fn line_tagged(ls: Seq<Seq<char>>, tag: Seq<char>) -> Option<Seq<char>>
    decreases ls.len(),
{
    if ls.len() == 0 {
        None
    } else if tag.is_prefix_of(front_trimmed(ls[0], Class::Space)) {
        Some(ls[0])
    } else {
        line_tagged(ls.skip(1), tag)
    }
}

/// What stands in quotes on the first line that begins with a tag.
pub open spec fn quoted_behind(text: Seq<char>, tag: Seq<char>) -> Option<Seq<char>> {
    match line_tagged(lines(text), tag) {
        Some(l) => piece(l, '"', 1),
        None => None,
    }
}

fn find_quoted(text: &[char], tag: &str) -> (r: Option<String>)
    ensures
        opt_text(r) == quoted_behind(text@, tag@),
{
    let ls = split_lines(text);
    let ghost all = lines(text@);
    let mut i: usize = 0;
    assert(all.skip(0) =~= all);
    while i < ls.len()
        invariant
            i <= ls@.len(),
            crate::text::parts(ls@) == all,
            all == lines(text@),
            line_tagged(all.skip(i as int), tag@) == line_tagged(all, tag@),
        decreases ls@.len() - i,
    {
        assert(all.skip(i as int)[0] == all[i as int]);
        assert(all[i as int] == ls@[i as int]@);
        if begins(trim_front(ls[i], Class::Space), tag) {
            return match nth_piece(ls[i], '"', 1) {
                Some(q) => Some(string_of(q)),
                None => None,
            };
        }
        assert(all.skip(i as int).skip(1) =~= all.skip(i + 1));
        i = i + 1;
    }
    None
}

/// The shader that a `.mat` names; it decides whether the base texture's alpha
/// is opacity or a specular mask.
pub open spec fn shader_in(text: Seq<char>) -> Seq<char> {
    match quoted_behind(text, "material"@) {
        Some(e) => e,
        None => Seq::empty(),
    }
}

pub fn shader(text: &str) -> (r: String)
    ensures
        r@ == shader_in(text@),
{
    let c = chars_of(text);
    match find_quoted(c.as_slice(), "material") {
        Some(e) => e,
        None => {
            let s = String::new();
            assert(s@ =~= Seq::<char>::empty());
            s
        },
    }
}

/// The `.tobj` of the base texture that a `.mat` names.
pub open spec fn base_tobj_in(text: Seq<char>) -> Option<Seq<char>> {
    match quoted_behind(text, "texture[0]"@) {
        Some(t) => Some(trimmed(t)),
        None => None,
    }
}

pub fn base_tobj(text: &str) -> (r: Option<String>)
    ensures
        opt_text(r) == base_tobj_in(text@),
{
    let c = chars_of(text);
    match find_quoted(c.as_slice(), "texture[0]") {
        Some(t) => {
            let d = chars_of(t.as_str());
            Some(string_of(trim(d.as_slice())))
        },
        None => None,
    }
}

/// The control characters of Unicode.
pub open spec fn control(c: char) -> bool {
    let n = c as u32;
    n < 0x20 || 0x7f <= n < 0xa0
}

/// Whether a run of characters looks like the path of an image.
pub open spec fn path_like(r: Seq<char>) -> bool {
    r.contains('/') && r.contains('.')
}

/// The last path before the run of characters at the end of `s` that has no
/// control character in it, and that run.
pub open spec fn scanned(s: Seq<char>) -> (Option<Seq<char>>, Seq<char>)
    decreases s.len(),
{
    if s.len() == 0 {
        (None, Seq::empty())
    } else {
        let p = scanned(s.drop_last());
        if control(s.last()) {
            (
                if path_like(p.1) {
                    Some(p.1)
                } else {
                    p.0
                },
                Seq::empty(),
            )
        } else {
            (p.0, p.1.push(s.last()))
        }
    }
}

/// The image that a `.tobj` wraps: the last run without control characters that
/// looks like a path.
pub open spec fn image_in(s: Seq<char>) -> Option<Seq<char>> {
    let p = scanned(s);
    if path_like(p.1) {
        Some(p.1)
    } else {
        p.0
    }
}

fn looks_like_path(r: &Vec<char>) -> (b: bool)
    ensures
        b == path_like(r@),
{
    has_char(r.as_slice(), '/') && has_char(r.as_slice(), '.')
}

/// The path of the image that a `.tobj` wraps, from its bytes as text.
pub fn image_path(tobj: &str) -> (r: Option<String>)
    ensures
        opt_text(r) == image_in(tobj@),
{
    let c = chars_of(tobj);
    let mut best: Option<Vec<char>> = None;
    let mut run: Vec<char> = Vec::new();
    let mut i: usize = 0;
    assert(c@.take(0) =~= Seq::<char>::empty());
    while i < c.len()
        invariant
            i <= c@.len(),
            run@ == scanned(c@.take(i as int)).1,
            match best {
                Some(b) => scanned(c@.take(i as int)).0 == Some(b@),
                None => scanned(c@.take(i as int)).0 is None,
            },
        decreases c@.len() - i,
    {
        assert(c@.take(i + 1).drop_last() =~= c@.take(i as int));
        let x = c[i];
        let n: u32 = x as u32;
        if n < 0x20 || (0x7f <= n && n < 0xa0) {
            let mut ended: Vec<char> = Vec::new();
            std::mem::swap(&mut ended, &mut run);
            if looks_like_path(&ended) {
                best = Some(ended);
            }
        } else {
            run.push(x);
        }
        i = i + 1;
    }
    assert(c@.take(i as int) =~= c@);
    if looks_like_path(&run) {
        return Some(string_of(run.as_slice()));
    }
    match best {
        Some(b) => Some(string_of(b.as_slice())),
        None => None,
    }
}

} // verus!
