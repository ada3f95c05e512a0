//! What can be said of the names that a file gives away, whatever it holds.

use crate::bytes::stands_at;
use crate::harvest::{
    adding_all, adding_all_gives_both, ascii, bytes_from, family, family_in, from_end, harvested,
    icon_files, icon_key, icons, mentions, mentions_in, mentions_of, model_folder, models_of,
    open_run, past_blanks, path_like, relatives, runs, sibling, spoken, value_at, value_end,
    values_after,
};
use crate::text::{
    back_trimmed, last_of, lemma_last_of, lemma_pieces_around, lemma_pieces_joined,
    lemma_pieces_nonempty, lowered, unrooted, Class,
};
use crate::tree::{joined_paths_are_walked_in_turn, steps};
use vstd::prelude::*;

verus! {

/// Letters, digits, slashes, dots, underscores and hyphens: what paths are
/// spelled with.
pub open spec fn spells(b: u8) -> bool {
    ||| 'a' as u8 <= b <= 'z' as u8
    ||| 'A' as u8 <= b <= 'Z' as u8
    ||| '0' as u8 <= b <= '9' as u8
    ||| b == '/' as u8
    ||| b == '.' as u8
    ||| b == '_' as u8
    ||| b == '-' as u8
}

/// Whether `t` stands between `pre` and `post` as a whole: it is all spelling, and
/// neither side goes on with it.
pub open spec fn stands_alone(pre: Seq<u8>, t: Seq<u8>, post: Seq<u8>) -> bool {
    &&& forall|i: int| 0 <= i < t.len() ==> spells(#[trigger] t[i])
    &&& pre.len() > 0 ==> !spells(pre.last())
    &&& post.len() > 0 ==> !spells(post[0])
}

/// The characters of `t`, in lower case.
pub open spec fn small(t: Seq<u8>) -> Seq<char> {
    Seq::new(
        t.len(),
        |i: int|
            if 'A' as u8 <= t[i] <= 'Z' as u8 {
                (t[i] + 32) as u8 as char
            } else {
                t[i] as char
            },
    )
}

proof fn lemma_open_run(pre: Seq<u8>, t: Seq<u8>)
    requires
        forall|i: int| 0 <= i < t.len() ==> spells(#[trigger] t[i]),
        pre.len() > 0 ==> !spells(pre.last()),
    ensures
        open_run(pre + t) == t,
    decreases t.len(),
{
    if t.len() == 0 {
        assert(pre + t =~= pre);
        assert(open_run(pre) =~= t);
    } else {
        let u = t.drop_last();
        assert forall|i: int| 0 <= i < u.len() implies spells(#[trigger] u[i]) by {
            assert(t[i] == u[i]);
        }
        lemma_open_run(pre, u);
        assert((pre + t).drop_last() =~= pre + u);
        assert(spells(t[t.len() - 1]));
        assert(open_run(pre + t) =~= t);
    }
}

proof fn lemma_runs_grow(x: Seq<u8>, y: Seq<u8>, t: Seq<u8>)
    requires
        runs(x).contains(t),
    ensures
        runs(x + y).contains(t),
    decreases y.len(),
{
    if y.len() == 0 {
        assert(x + y =~= x);
    } else {
        let z = y.drop_last();
        lemma_runs_grow(x, z, t);
        assert((x + y).drop_last() =~= x + z);
        let r = runs(x + z);
        let i = r.index_of(t);
        assert(r.push(open_run(x + z))[i] == t);
        assert(runs(x + y)[i] == t);
    }
}

proof fn lemma_run_found(pre: Seq<u8>, t: Seq<u8>, post: Seq<u8>)
    requires
        stands_alone(pre, t, post),
    ensures
        runs((pre + t + post).push(0)).contains(t),
{
    let rest = post.push(0);
    let x = (pre + t).push(rest[0]);
    lemma_open_run(pre, t);
    assert(x.drop_last() =~= pre + t);
    assert(!spells(rest[0]));
    let r = runs(pre + t);
    assert(runs(x) == r.push(t));
    assert(runs(x)[r.len() as int] == t);
    lemma_runs_grow(x, rest.skip(1), t);
    assert((pre + t + post).push(0) =~= x + rest.skip(1));
}

proof fn lemma_mentioned(v: Seq<Seq<u8>>, t: Seq<u8>, owner: Seq<char>, n: Seq<char>)
    requires
        v.contains(t),
        mentions_of(t, owner).contains(n),
    ensures
        mentions_in(v, owner).contains(n),
    decreases v.len(),
{
    let i = v.index_of(t);
    let a = mentions_in(v.drop_last(), owner);
    let b = mentions_of(v.last(), owner);
    if i == v.len() - 1 {
        let j = b.index_of(n);
        assert((a + b)[a.len() + j] == n);
    } else {
        assert(v.drop_last()[i] == t);
        lemma_mentioned(v.drop_last(), t, owner, n);
        let j = a.index_of(n);
        assert((a + b)[j] == n);
    }
}

/// A name that a token stands for is among those of the file around it.
proof fn lemma_harvested(
    s: Seq<Seq<char>>,
    pre: Seq<u8>,
    t: Seq<u8>,
    post: Seq<u8>,
    owner: Seq<char>,
    n: Seq<char>,
)
    requires
        stands_alone(pre, t, post),
        path_like(t, owner.len() > 0),
        mentions(ascii(t), owner).contains(n),
    ensures
        adding_all(s, harvested(pre + t + post, owner)).contains(n),
{
    let d = pre + t + post;
    lemma_run_found(pre, t, post);
    lemma_mentioned(runs(d.push(0)), t, owner, n);
    let a = spoken(d, owner);
    let j = a.index_of(n);
    assert(harvested(d, owner)[j] == n);
    adding_all_gives_both(s, harvested(d, owner));
}

proof fn lemma_small(t: Seq<u8>)
    ensures
        lowered(ascii(t)) == small(t),
{
    assert forall|i: int| 0 <= i < t.len() implies lowered(ascii(t))[i] == small(t)[i] by {
        assert(ascii(t)[i] == t[i] as char);
        assert((t[i] as char) as u32 == t[i] as u32);
    }
    assert(lowered(ascii(t)) =~= small(t));
}

proof fn lemma_either(a: Seq<Seq<char>>, b: Seq<Seq<char>>, n: Seq<char>)
    ensures
        a.contains(n) || b.contains(n) ==> (a + b).contains(n),
{
    if a.contains(n) {
        assert((a + b)[a.index_of(n)] == n);
    } else if b.contains(n) {
        assert((a + b)[a.len() + b.index_of(n)] == n);
    }
}

/// What a token stands for, part by part.
proof fn lemma_mentions(c: Seq<char>, owner: Seq<char>, n: Seq<char>)
    requires
        unrooted(c).len() > 0,
    ensures
        ({
            let t = lowered(unrooted(c));
            let near = owner + "/"@ + t;
            let all = mentions(c, owner);
            &&& n == t || relatives(t).contains(n) ==> all.contains(n)
            &&& (model_folder(t) matches Some(p) && models_of(p).contains(n)) ==> all.contains(n)
            &&& owner.len() > 0 && c[0] != '/' && (n == near || relatives(near).contains(n))
                ==> all.contains(n)
        }),
{
    let t = lowered(unrooted(c));
    let near = owner + "/"@ + t;
    let a = seq![t];
    let b = relatives(t);
    let m = match model_folder(t) {
        Some(p) => models_of(p),
        None => Seq::empty(),
    };
    let d = if owner.len() > 0 && !(c.len() > 0 && c[0] == '/') {
        seq![near] + relatives(near)
    } else {
        Seq::empty()
    };
    assert(a[0] == t);
    assert(seq![near][0] == near);
    lemma_either(seq![near], relatives(near), n);
    lemma_either(a, b, n);
    lemma_either(a + b, m, n);
    lemma_either(a + b + m, d, n);
    if c.len() == 0 {
        assert(unrooted(c) == c);
    }
}

/// A path without a leading slash is relative to the folder of the file that
/// spells it: the names of a file in the folder `owner` hold one whose steps are
/// those of the folder and then those of the path. It takes a dot and more than
/// four characters to be a path.
pub proof fn relative_paths_lead_into_the_folder(
    s: Seq<Seq<char>>,
    pre: Seq<u8>,
    t: Seq<u8>,
    post: Seq<u8>,
    owner: Seq<char>,
)
    requires
        stands_alone(pre, t, post),
        t.len() > 4,
        t.contains('.' as u8),
        t[0] != '/' as u8,
        owner.len() > 0,
    ensures
        exists|n: Seq<char>|
            #[trigger] adding_all(s, harvested(pre + t + post, owner)).contains(n) && steps(n)
                == steps(owner) + steps(small(t)),
{
    lemma_small(t);
    let c = ascii(t);
    let u = small(t);
    assert(c[0] == t[0] as char);
    assert(c[0] != '/');
    assert(unrooted(c) == c);
    let near = owner + "/"@ + u;
    joined_paths_are_walked_in_turn(owner, u);
    lemma_mentions(c, owner, near);
    lemma_harvested(s, pre, t, post, owner, near);
}

proof fn lemma_unrooted(c: Seq<char>, k: int)
    requires
        0 <= k < c.len(),
        c[k] != '/',
    ensures
        unrooted(c).len() > 0,
    decreases c.len(),
{
    if c[0] == '/' {
        assert(c.skip(1)[k - 1] == c[k]);
        lemma_unrooted(c.skip(1), k - 1);
    }
}

proof fn lemma_steps_unrooted(c: Seq<char>)
    ensures
        steps(lowered(unrooted(c))) == steps(lowered(c)),
    decreases c.len(),
{
    if c.len() > 0 && c[0] == '/' {
        let r = c.skip(1);
        lemma_steps_unrooted(r);
        reveal_strlit("/");
        assert(lowered(c) =~= Seq::<char>::empty() + "/"@ + lowered(r));
        joined_paths_are_walked_in_turn(Seq::empty(), lowered(r));
        assert(steps(Seq::empty()) =~= Seq::<Seq<char>>::empty()) by {
            reveal_with_fuel(crate::tree::names_of, 2);
        }
        assert(steps(lowered(c)) =~= steps(lowered(r)));
    }
}

/// A path with a slash in it is one inside the archive, with a leading slash or
/// without: the names of a file hold one that leads through the same steps.
pub proof fn paths_lead_into_the_archive(
    s: Seq<Seq<char>>,
    pre: Seq<u8>,
    t: Seq<u8>,
    post: Seq<u8>,
    owner: Seq<char>,
)
    requires
        stands_alone(pre, t, post),
        t.len() > 4,
        t.contains('.' as u8),
        t.contains('/' as u8),
    ensures
        exists|n: Seq<char>|
            #[trigger] adding_all(s, harvested(pre + t + post, owner)).contains(n) && steps(n)
                == steps(small(t)),
{
    let c = ascii(t);
    let k = t.index_of('.' as u8);
    assert(c[k] == '.');
    lemma_unrooted(c, k);
    let u = lowered(unrooted(c));
    lemma_small(t);
    lemma_steps_unrooted(c);
    lemma_mentions(c, owner, u);
    lemma_harvested(s, pre, t, post, owner, u);
}

/// What the files of one model are called, but for the stem.
pub open spec fn kin() -> Seq<Seq<char>> {
    seq!["pmg"@, "pmd"@, "pmc"@, "pma"@, "pms"@, "pit"@, "pis"@, "tobj"@, "dds"@]
}

proof fn lemma_family(stem: Seq<char>, i: int)
    requires
        0 <= i < 9,
    ensures
        family(stem).contains(stem + "."@ + kin()[i]),
{
    assert(sibling(i) == kin()[i]);
    assert(family(stem)[i] == stem + "."@ + kin()[i]);
}

proof fn lemma_relatives(stem: Seq<char>, ext: Seq<char>, i: int)
    requires
        !ext.contains('.'),
        0 <= i < 9,
    ensures
        relatives(stem + "."@ + ext).contains(stem + "."@ + kin()[i]),
{
    reveal_strlit(".");
    let t = stem + "."@ + ext;
    lemma_last_of(t, '.');
    assert(t[stem.len() as int] == '.');
    assert forall|j: int| stem.len() < j < t.len() implies t[j] != '.' by {
        assert(t[j] == ext[j - stem.len() - 1]);
        assert(ext.contains(t[j]));
    }
    if last_of(t, '.') is None {
        assert(t.contains(t[stem.len() as int]));
    }
    assert(last_of(t, '.') == Some(stem.len() as int));
    assert(t.take(stem.len() as int) =~= stem);
    lemma_family(stem, i);
}

/// Whether bytes spell a path without a leading slash: folders and a stem, a dot,
/// and an extension.
pub open spec fn spells_file(stem: Seq<u8>, ext: Seq<u8>, owner: Seq<char>) -> bool {
    &&& stem.len() > 0
    &&& stem[0] != '/' as u8
    &&& stem.len() + 1 + ext.len() > 4
    &&& !ext.contains('.' as u8)
    &&& stem.contains('/' as u8) || owner.len() > 0
}

proof fn lemma_small_file(stem: Seq<u8>, ext: Seq<u8>)
    requires
        !ext.contains('.' as u8),
    ensures
        small(stem + seq!['.' as u8] + ext) == small(stem) + "."@ + small(ext),
        !small(ext).contains('.'),
{
    reveal_strlit(".");
    assert(small(stem + seq!['.' as u8] + ext) =~= small(stem) + "."@ + small(ext));
    if small(ext).contains('.') {
        let j = small(ext).index_of('.');
        assert(small(ext)[j] == '.');
        assert(ext[j] == '.' as u8);
    }
}

/// A path names one file of a model; the others may stand beside it under the same
/// stem, both inside the archive and inside the folder of the file that spells it.
pub proof fn relatives_are_named_too(
    s: Seq<Seq<char>>,
    pre: Seq<u8>,
    stem: Seq<u8>,
    ext: Seq<u8>,
    post: Seq<u8>,
    owner: Seq<char>,
    i: int,
)
    requires
        spells_file(stem, ext, owner),
        stands_alone(pre, stem + seq!['.' as u8] + ext, post),
        0 <= i < 9,
    ensures
        ({
            let t = stem + seq!['.' as u8] + ext;
            let all = adding_all(s, harvested(pre + t + post, owner));
            &&& all.contains(small(stem) + "."@ + kin()[i])
            &&& owner.len() > 0 ==> all.contains(owner + "/"@ + small(stem) + "."@ + kin()[i])
        }),
{
    let t = stem + seq!['.' as u8] + ext;
    lemma_path(stem, ext, owner);
    lemma_small(t);
    lemma_small_file(stem, ext);
    let c = ascii(t);
    assert(c[0] == t[0] as char);
    assert(unrooted(c) == c);
    let a = small(stem) + "."@ + kin()[i];
    lemma_relatives(small(stem), small(ext), i);
    lemma_mentions(c, owner, a);
    lemma_harvested(s, pre, t, post, owner, a);
    if owner.len() > 0 {
        let long = owner + "/"@ + small(stem);
        let b = long + "."@ + kin()[i];
        assert(owner + "/"@ + small(t) =~= long + "."@ + small(ext));
        lemma_relatives(long, small(ext), i);
        lemma_mentions(c, owner, b);
        lemma_harvested(s, pre, t, post, owner, b);
    }
}

proof fn lemma_path(stem: Seq<u8>, ext: Seq<u8>, owner: Seq<char>)
    requires
        spells_file(stem, ext, owner),
    ensures
        path_like(stem + seq!['.' as u8] + ext, owner.len() > 0),
{
    let t = stem + seq!['.' as u8] + ext;
    assert(t[stem.len() as int] == '.' as u8);
    assert(t.contains(t[stem.len() as int]));
    if stem.contains('/' as u8) {
        let j = stem.index_of('/' as u8);
        assert(t[j] == '/' as u8);
        assert(t.contains(t[j]));
    }
}

/// The text that ends in `own` after a slash, as pieces.
proof fn lemma_own_name(outer: Seq<char>, own: Seq<char>)
    requires
        !own.contains('/'),
    ensures
        from_end(outer + "/"@ + own, 0) == own,
        from_end(outer + "/"@ + own, 1) == from_end(outer, 0),
{
    reveal_strlit("/");
    assert(outer + "/"@ + own =~= outer.push('/') + own);
    lemma_pieces_joined(outer, own, '/');
    lemma_pieces_around(own, Seq::empty(), '/');
    lemma_pieces_nonempty(outer, '/');
}

#[verifier::rlimit(40)]
#[verifier::spinoff_prover]
proof fn lemma_model_folder(folder: Seq<char>, file: Seq<char>)
    requires
        !file.contains('/'),
    ensures
        model_folder(folder + "/materials/"@ + file) == Some(folder),
{
    reveal_strlit("/materials/");
    reveal_strlit("/materials");
    let dir = folder + "/materials/"@;
    let t = dir + file;
    lemma_last_of(t, '/');
    let k = dir.len() - 1;
    assert(dir[k] == '/');
    assert(t[k] == '/');
    assert forall|j: int| k < j < t.len() implies t[j] != '/' by {
        assert(t[j] == file[j - dir.len()]);
        assert(file.contains(t[j]));
    }
    if last_of(t, '/') is None {
        assert(t.contains(t[k]));
    }
    assert(last_of(t, '/') == Some(k));
    assert(t.take(k + 1) =~= dir);
    let bare = folder + "/materials"@;
    assert(dir.drop_last() =~= bare);
    assert(bare.last() == 's');
    reveal_with_fuel(back_trimmed, 2);
    assert(back_trimmed(dir, Class::Is('/')) == bare);
    assert(bare.skip(bare.len() - 10) =~= "/materials"@);
    assert(bare.take(bare.len() - 10) =~= folder);
}

/// A material stands in the `materials` folder of its model, and a model is often
/// called like the folder that it stands in, like the one around that, or plainly
/// `model` or `body`: the names of a file that spells a material's path hold all of
/// these.
pub proof fn materials_lead_to_their_model(
    s: Seq<Seq<char>>,
    pre: Seq<u8>,
    outer: Seq<u8>,
    up: Seq<u8>,
    own: Seq<u8>,
    stem: Seq<u8>,
    ext: Seq<u8>,
    post: Seq<u8>,
    owner: Seq<char>,
    i: int,
)
    requires
        outer.len() > 0,
        outer[0] != '/' as u8,
        up.len() > 0,
        own.len() > 0,
        !up.contains('/' as u8),
        !own.contains('/' as u8),
        !stem.contains('/' as u8),
        !ext.contains('/' as u8),
        !ext.contains('.' as u8),
        stands_alone(pre, material_path(outer, up, own, stem) + seq!['.' as u8] + ext, post),
        0 <= i < 9,
    ensures
        ({
            let t = material_path(outer, up, own, stem) + seq!['.' as u8] + ext;
            let folder = small(outer) + "/"@ + small(up) + "/"@ + small(own);
            let all = adding_all(s, harvested(pre + t + post, owner));
            &&& all.contains(folder + "/"@ + small(own) + "."@ + kin()[i])
            &&& all.contains(folder + "/"@ + small(up) + "."@ + kin()[i])
            &&& all.contains(folder + "/"@ + "model"@ + "."@ + kin()[i])
            &&& all.contains(folder + "/"@ + "body"@ + "."@ + kin()[i])
        }),
{
    let path = material_path(outer, up, own, stem);
    let t = path + seq!['.' as u8] + ext;
    let folder = small(outer) + "/"@ + small(up) + "/"@ + small(own);
    let file = small(stem) + "."@ + small(ext);
    lemma_material_path(outer, up, own, stem, ext);
    assert(path[outer.len() as int] == '/' as u8);
    assert(path.contains(path[outer.len() as int]));
    assert(path[0] == outer[0]);
    lemma_path(path, ext, owner);
    lemma_small(t);
    lemma_no_slash(up);
    lemma_no_slash(own);
    lemma_no_slash(stem);
    lemma_no_slash(ext);
    reveal_strlit(".");
    if file.contains('/') {
        let j = file.index_of('/');
        if j < small(stem).len() {
            assert(small(stem)[j] == '/');
        } else {
            assert(small(ext)[j - small(stem).len() - 1] == '/');
        }
    }
    lemma_model_folder(folder, file);
    lemma_own_name(small(outer) + "/"@ + small(up), small(own));
    lemma_own_name(small(outer), small(up));
    let c = ascii(t);
    assert(c[0] == t[0] as char);
    assert(unrooted(c) == c);
    let e = kin()[i];
    reveal_strlit("model");
    reveal_strlit("body");
    let f1 = family_in(folder, small(own));
    let f2 = family_in(folder, small(up));
    let f3 = family_in(folder, "model"@);
    let f4 = family_in(folder, "body"@);
    let n1 = folder + "/"@ + small(own) + "."@ + e;
    let n2 = folder + "/"@ + small(up) + "."@ + e;
    let n3 = folder + "/"@ + "model"@ + "."@ + e;
    let n4 = folder + "/"@ + "body"@ + "."@ + e;
    lemma_family(folder + "/"@ + small(own), i);
    lemma_family(folder + "/"@ + small(up), i);
    lemma_family(folder + "/"@ + "model"@, i);
    lemma_family(folder + "/"@ + "body"@, i);
    lemma_either(f1, f2, n1);
    lemma_either(f1, f2, n2);
    lemma_either(f1 + f2, f3, n1);
    lemma_either(f1 + f2, f3, n2);
    lemma_either(f1 + f2, f3, n3);
    lemma_either(f1 + f2 + f3, f4, n1);
    lemma_either(f1 + f2 + f3, f4, n2);
    lemma_either(f1 + f2 + f3, f4, n3);
    lemma_either(f1 + f2 + f3, f4, n4);
    lemma_mentions(c, owner, n1);
    lemma_mentions(c, owner, n2);
    lemma_mentions(c, owner, n3);
    lemma_mentions(c, owner, n4);
    lemma_harvested(s, pre, t, post, owner, n1);
    lemma_harvested(s, pre, t, post, owner, n2);
    lemma_harvested(s, pre, t, post, owner, n3);
    lemma_harvested(s, pre, t, post, owner, n4);
}

/// The path of a material up to its extension: `outer/up/own/materials/stem`.
pub open spec fn material_path(
    outer: Seq<u8>,
    up: Seq<u8>,
    own: Seq<u8>,
    stem: Seq<u8>,
) -> Seq<u8> {
    outer + seq!['/' as u8] + up + seq!['/' as u8] + own + seq![
        '/' as u8,
        'm' as u8,
        'a' as u8,
        't' as u8,
        'e' as u8,
        'r' as u8,
        'i' as u8,
        'a' as u8,
        'l' as u8,
        's' as u8,
        '/' as u8,
    ] + stem
}

proof fn lemma_no_slash(b: Seq<u8>)
    requires
        !b.contains('/' as u8),
    ensures
        !small(b).contains('/'),
{
    if small(b).contains('/') {
        let j = small(b).index_of('/');
        assert(small(b)[j] == '/');
        assert(b[j] == '/' as u8);
    }
}

proof fn lemma_small_both(a: Seq<u8>, b: Seq<u8>)
    ensures
        small(a + b) == small(a) + small(b),
{
    assert(small(a + b) =~= small(a) + small(b));
}

proof fn lemma_material_path(
    outer: Seq<u8>,
    up: Seq<u8>,
    own: Seq<u8>,
    stem: Seq<u8>,
    ext: Seq<u8>,
)
    ensures
        small(material_path(outer, up, own, stem) + seq!['.' as u8] + ext) == small(outer) + "/"@
            + small(up) + "/"@ + small(own) + "/materials/"@ + (small(stem) + "."@ + small(ext)),
{
    let slash = seq!['/' as u8];
    let dot = seq!['.' as u8];
    let m = seq![
        '/' as u8,
        'm' as u8,
        'a' as u8,
        't' as u8,
        'e' as u8,
        'r' as u8,
        'i' as u8,
        'a' as u8,
        'l' as u8,
        's' as u8,
        '/' as u8,
    ];
    lemma_small_both(outer, slash);
    lemma_small_both(outer + slash, up);
    lemma_small_both(outer + slash + up, slash);
    lemma_small_both(outer + slash + up + slash, own);
    lemma_small_both(outer + slash + up + slash + own, m);
    lemma_small_both(outer + slash + up + slash + own + m, stem);
    lemma_small_both(outer + slash + up + slash + own + m + stem, dot);
    lemma_small_both(outer + slash + up + slash + own + m + stem + dot, ext);
    reveal_strlit("/");
    reveal_strlit(".");
    reveal_strlit("/materials/");
    assert(small(slash) =~= "/"@);
    assert(small(dot) =~= "."@);
    assert(small(m) =~= "/materials/"@);
    let a = small(outer) + "/"@ + small(up) + "/"@ + small(own) + "/materials/"@;
    assert(a + small(stem) + "."@ + small(ext) =~= a + (small(stem) + "."@ + small(ext)));
}

// ---------------------------------------------------------------- icons ---

/// `icon:` as bytes.
pub open spec fn icon_word() -> Seq<u8> {
    seq!['i' as u8, 'c' as u8, 'o' as u8, 'n' as u8, ':' as u8]
}

proof fn lemma_blanks(d: Seq<u8>, j: int, q: int)
    requires
        0 <= j <= q < d.len(),
        forall|k: int| j <= k < q ==> #[trigger] d[k] == ' ' as u8 || d[k] == '\t' as u8,
        d[q] == '"' as u8,
    ensures
        past_blanks(d, j) == q,
    decreases q - j,
{
    if j < q {
        lemma_blanks(d, j + 1, q);
    }
}

proof fn lemma_value_end(d: Seq<u8>, j: int, q: int)
    requires
        0 <= j <= q < d.len(),
        forall|k: int| j <= k < q ==> #[trigger] d[k] != '"' as u8 && d[k] != '\n' as u8,
        d[q] == '"' as u8,
    ensures
        value_end(d, j) == q,
    decreases q - j,
{
    if j < q {
        lemma_value_end(d, j + 1, q);
    }
}

/// Wherever the key stands, its value is found.
proof fn lemma_values(d: Seq<u8>, i: int, p: int, m: Seq<char>)
    requires
        0 <= i <= p,
        stands_at(d, p, icon_word()),
        value_at(d, p + 5) == Some(m),
    ensures
        values_after(d, icon_word(), i).contains(m),
    decreases d.len() - i,
{
    let key = icon_word();
    lemma_first_stand(d, key, i, p);
    let q = bytes_from(d, key, i)->0;
    let rest = values_after(d, key, q + 5);
    let here = match value_at(d, q + 5) {
        Some(v) => seq![v],
        None => Seq::empty(),
    };
    if q == p {
        assert((here + rest)[0] == m);
    } else {
        if p < q + 5 {
            let a = d.subrange(q, q + 5);
            let b = d.subrange(p, p + 5);
            assert(a[p - q] == d[p] && b[0] == d[p]);
            assert(key[p - q] == key[0]);
        }
        lemma_values(d, q + 5, p, m);
        let k = rest.index_of(m);
        assert((here + rest)[here.len() + k] == m);
    }
}

proof fn lemma_first_stand(d: Seq<u8>, key: Seq<u8>, i: int, p: int)
    requires
        0 <= i <= p,
        key.len() > 0,
        stands_at(d, p, key),
    ensures
        bytes_from(d, key, i) matches Some(q) && i <= q <= p && stands_at(d, q, key),
    decreases p - i,
{
    if i < p && !stands_at(d, i, key) {
        lemma_first_stand(d, key, i + 1, p);
    }
}

proof fn lemma_icons(v: Seq<Seq<char>>, m: Seq<char>, n: Seq<char>)
    requires
        v.contains(m),
        icon_files(m).contains(n),
    ensures
        icons(v).contains(n),
    decreases v.len(),
{
    let front = icons(v.drop_last());
    let last = icon_files(v.last());
    let i = v.index_of(m);
    if i < v.len() - 1 {
        assert(v.drop_last()[i] == m);
        lemma_icons(v.drop_last(), m, n);
    }
    lemma_either(front, last, n);
}

/// `icon: "x"` names the material, the texture object and the image of an icon, in
/// the two folders where user interfaces keep them, in lower case.
pub proof fn icons_are_named(
    s: Seq<Seq<char>>,
    pre: Seq<u8>,
    gap: Seq<u8>,
    x: Seq<u8>,
    post: Seq<u8>,
    owner: Seq<char>,
)
    requires
        forall|k: int|
            0 <= k < gap.len() ==> #[trigger] gap[k] == ' ' as u8 || gap[k] == '\t' as u8,
        forall|k: int|
            0 <= k < x.len() ==> #[trigger] x[k] != '"' as u8 && x[k] != '\n' as u8,
        0 < x.len() < 128,
        vstd::utf8::valid_utf8(x),
    ensures
        ({
            let d = pre + icon_word() + gap + seq!['"' as u8] + x + seq!['"' as u8] + post;
            let m = lowered(vstd::utf8::decode_utf8(x));
            let all = adding_all(s, harvested(d, owner));
            &&& all.contains("material/ui/accessory/"@ + m + ".mat"@)
            &&& all.contains("material/ui/accessory/"@ + m + ".tobj"@)
            &&& all.contains("material/ui/accessory/"@ + m + ".dds"@)
            &&& all.contains("material/ui/"@ + m + ".mat"@)
            &&& all.contains("material/ui/"@ + m + ".tobj"@)
            &&& all.contains("material/ui/"@ + m + ".dds"@)
        }),
{
    let d = pre + icon_word() + gap + seq!['"' as u8] + x + seq!['"' as u8] + post;
    let m = lowered(vstd::utf8::decode_utf8(x));
    let p = pre.len() as int;
    let q = (p + 5 + gap.len()) as int;
    let e = (q + 1 + x.len()) as int;
    assert(d.subrange(p, p + 5) =~= icon_word());
    assert forall|k: int| p + 5 <= k < q implies #[trigger] d[k] == ' ' as u8 || d[k] == '\t' as u8 by {
        assert(d[k] == gap[k - p - 5]);
    }
    assert(d[q] == '"' as u8);
    lemma_blanks(d, p + 5, q);
    assert forall|k: int| q + 1 <= k < e implies #[trigger] d[k] != '"' as u8 && d[k]
        != '\n' as u8 by {
        assert(d[k] == x[k - q - 1]);
    }
    assert(d[e] == '"' as u8);
    lemma_value_end(d, q + 1, e);
    assert(d.subrange(q + 1, e) =~= x);
    assert(value_at(d, p + 5) == Some(m));
    lemma_values(d, 0, p, m);
    assert(icon_key() =~= icon_word());
    let v = values_after(d, icon_key(), 0);
    let f = icon_files(m);
    let a = spoken(d, owner);
    adding_all_gives_both(s, harvested(d, owner));
    assert forall|i: int| 0 <= i < 6 implies adding_all(s, harvested(d, owner)).contains(
        #[trigger] f[i],
    ) by {
        assert(f.contains(f[i]));
        lemma_icons(v, m, f[i]);
        lemma_either(a, icons(v), f[i]);
    }
    assert(f[0] == "material/ui/accessory/"@ + m + ".mat"@);
    assert(f[1] == "material/ui/"@ + m + ".mat"@);
    assert(f[2] == "material/ui/accessory/"@ + m + ".tobj"@);
    assert(f[3] == "material/ui/"@ + m + ".tobj"@);
    assert(f[4] == "material/ui/accessory/"@ + m + ".dds"@);
    assert(f[5] == "material/ui/"@ + m + ".dds"@);
}

} // verus!
