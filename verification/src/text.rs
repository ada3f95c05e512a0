//! Text as sequences of characters: trimming, splitting, searching, ordering
//! and the conversions between numbers and digits.

use vstd::prelude::*;

verus! {

// ---------------------------------------------------------- conversions ---

/// `String::push` appends one character.
pub assume_specification[ String::push ](s: &mut String, c: char)
    ensures
        final(s)@ == old(s)@.push(c),
;

/// What `String::from_utf8_lossy` reads out of bytes that need not be UTF-8.
pub uninterp spec fn utf8_lossy(b: Seq<u8>) -> Seq<char>;

/// `String::from_utf8_lossy`: valid UTF-8 is decoded; anything else comes out
/// with replacement characters, in a way that depends on the bytes alone.
#[verifier::external_body]
pub(crate) fn lossy(b: &[u8]) -> (r: String)
    ensures
        r@ == utf8_lossy(b@),
        vstd::utf8::valid_utf8(b@) ==> r@ == vstd::utf8::decode_utf8(b@),
{
    String::from_utf8_lossy(b).into_owned()
}

/// `core::str::from_utf8`: the text of valid UTF-8, and nothing for other bytes.
#[verifier::external_body]
pub(crate) fn from_utf8(b: &[u8]) -> (r: Option<String>)
    ensures
        match r {
            Some(s) => vstd::utf8::valid_utf8(b@) && s@ == vstd::utf8::decode_utf8(b@),
            None => !vstd::utf8::valid_utf8(b@),
        },
{
    match std::str::from_utf8(b) {
        Ok(s) => Some(s.to_owned()),
        Err(_) => None,
    }
}

/// How `Debug` writes a text: quoted, with what needs it escaped.
pub uninterp spec fn debug_text(s: Seq<char>) -> Seq<char>;

/// `format!` with `{:?}` of a string slice, which depends on the text alone.
#[verifier::external_body]
pub(crate) fn quoted_debug(s: &str) -> (r: String)
    ensures
        r@ == debug_text(s@),
{
    format!("{s:?}")
}

pub fn chars_of(s: &str) -> (r: Vec<char>)
    ensures
        r@ == s@,
{
    let mut r: Vec<char> = Vec::new();
    for c in it: s.chars()
        invariant
            it.seq() == s@,
            r@ == s@.take(it.index()),
    {
        r.push(c);
    }
    r
}

pub fn string_of(s: &[char]) -> (r: String)
    ensures
        r@ == s@,
{
    let mut r = String::new();
    let mut i: usize = 0;
    while i < s.len()
        invariant
            i <= s@.len(),
            r@ == s@.take(i as int),
        decreases s@.len() - i,
    {
        r.push(s[i]);
        i = i + 1;
    }
    r
}

/// The parts of a list of strings.
pub open spec fn texts(v: Seq<String>) -> Seq<Seq<char>> {
    Seq::new(v.len(), |i: int| v[i]@)
}

/// The parts of a list of slices.
pub open spec fn parts(v: Seq<&[char]>) -> Seq<Seq<char>> {
    Seq::new(v.len(), |i: int| v[i]@)
}

pub fn clone_texts(v: &Vec<String>) -> (r: Vec<String>)
    ensures
        r@ == v@,
{
    let mut r: Vec<String> = Vec::new();
    let mut i: usize = 0;
    while i < v.len()
        invariant
            i <= v@.len(),
            r@ == v@.take(i as int),
        decreases v@.len() - i,
    {
        r.push(v[i].clone());
        i = i + 1;
    }
    r
}

pub fn strings_of(v: &Vec<&[char]>) -> (r: Vec<String>)
    ensures
        texts(r@) == parts(v@),
{
    let mut r: Vec<String> = Vec::new();
    let mut i: usize = 0;
    while i < v.len()
        invariant
            i <= v@.len(),
            texts(r@) == parts(v@).take(i as int),
        decreases v@.len() - i,
    {
        let ghost before = texts(r@);
        r.push(string_of(v[i]));
        assert(texts(r@) =~= before.push(parts(v@)[i as int]));
        i = i + 1;
    }
    r
}

/// `a` followed by `b`.
pub fn cat(a: &str, b: &str) -> (r: String)
    ensures
        r@ == a@ + b@,
{
    let mut r = a.to_owned();
    r.append(b);
    r
}

pub fn cat3(a: &str, b: &str, c: &str) -> (r: String)
    ensures
        r@ == a@ + b@ + c@,
{
    let mut r = a.to_owned();
    r.append(b);
    r.append(c);
    r
}

// ------------------------------------------------------------- equality ---

pub fn same(a: &[char], b: &[char]) -> (r: bool)
    ensures
        r == (a@ == b@),
{
    if a.len() != b.len() {
        return false;
    }
    let mut i: usize = 0;
    while i < a.len()
        invariant
            i <= a@.len(),
            a@.len() == b@.len(),
            forall|j: int| 0 <= j < i ==> a@[j] == b@[j],
        decreases a@.len() - i,
    {
        if a[i] != b[i] {
            assert(a@[i as int] != b@[i as int]);
            return false;
        }
        i = i + 1;
    }
    assert(a@ =~= b@);
    true
}

pub fn equals(a: &[char], b: &str) -> (r: bool)
    ensures
        r == (a@ == b@),
{
    let c = chars_of(b);
    same(a, c.as_slice())
}

pub fn same_str(a: &str, b: &str) -> (r: bool)
    ensures
        r == (a@ == b@),
{
    let c = chars_of(a);
    equals(c.as_slice(), b)
}

pub fn starts_with(s: &[char], p: &[char]) -> (r: bool)
    ensures
        r == p@.is_prefix_of(s@),
{
    if p.len() > s.len() {
        return false;
    }
    let r = same(&s[0..p.len()], p);
    assert(r == p@.is_prefix_of(s@));
    r
}

pub fn begins(s: &[char], p: &str) -> (r: bool)
    ensures
        r == p@.is_prefix_of(s@),
{
    let c = chars_of(p);
    starts_with(s, c.as_slice())
}

pub fn ends_with(s: &[char], p: &[char]) -> (r: bool)
    ensures
        r == p@.is_suffix_of(s@),
{
    if p.len() > s.len() {
        return false;
    }
    let r = same(&s[s.len() - p.len()..s.len()], p);
    assert(r == p@.is_suffix_of(s@));
    r
}

pub fn ends(s: &[char], p: &str) -> (r: bool)
    ensures
        r == p@.is_suffix_of(s@),
{
    let c = chars_of(p);
    ends_with(s, c.as_slice())
}

/// What follows the prefix `p`, if `s` has it.
pub open spec fn after_prefix(s: Seq<char>, p: Seq<char>) -> Option<Seq<char>> {
    if p.is_prefix_of(s) {
        Some(s.skip(p.len() as int))
    } else {
        None
    }
}

/// What precedes the suffix `p`, if `s` has it.
pub open spec fn before_suffix(s: Seq<char>, p: Seq<char>) -> Option<Seq<char>> {
    if p.is_suffix_of(s) {
        Some(s.take(s.len() - p.len()))
    } else {
        None
    }
}

/// An optional slice as an optional sequence.
pub open spec fn opt(o: Option<&[char]>) -> Option<Seq<char>> {
    match o {
        Some(s) => Some(s@),
        None => None,
    }
}

/// An optional string as an optional sequence.
pub open spec fn opt_text(o: Option<String>) -> Option<Seq<char>> {
    match o {
        Some(s) => Some(s@),
        None => None,
    }
}

pub open spec fn opt_str(o: Option<&str>) -> Option<Seq<char>> {
    match o {
        Some(s) => Some(s@),
        None => None,
    }
}

pub fn strip_prefix<'a>(s: &'a [char], p: &str) -> (r: Option<&'a [char]>)
    ensures
        opt(r) == after_prefix(s@, p@),
{
    let c = chars_of(p);
    if starts_with(s, c.as_slice()) {
        let r = &s[c.len()..s.len()];
        assert(r@ =~= s@.skip(p@.len() as int));
        Some(r)
    } else {
        None
    }
}

pub fn strip_suffix<'a>(s: &'a [char], p: &str) -> (r: Option<&'a [char]>)
    ensures
        opt(r) == before_suffix(s@, p@),
{
    let c = chars_of(p);
    if ends_with(s, c.as_slice()) {
        let r = &s[0..s.len() - c.len()];
        assert(r@ =~= s@.take(s@.len() - p@.len()));
        Some(r)
    } else {
        None
    }
}

// ------------------------------------------------------------- trimming ---

/// The characters with Unicode's White_Space property.
pub open spec fn space(c: char) -> bool {
    let n = c as u32;
    ||| 0x09 <= n <= 0x0d
    ||| n == 0x20
    ||| n == 0x85
    ||| n == 0xa0
    ||| n == 0x1680
    ||| 0x2000 <= n <= 0x200a
    ||| n == 0x2028
    ||| n == 0x2029
    ||| n == 0x202f
    ||| n == 0x205f
    ||| n == 0x3000
}

pub fn is_space(c: char) -> (r: bool)
    ensures
        r == space(c),
{
    let n: u32 = c as u32;
    (0x09 <= n && n <= 0x0d) || n == 0x20 || n == 0x85 || n == 0xa0 || n == 0x1680 || (0x2000 <= n
        && n <= 0x200a) || n == 0x2028 || n == 0x2029 || n == 0x202f || n == 0x205f || n == 0x3000
}

/// A class of characters to trim.
#[derive(Clone, Copy)]
pub enum Class {
    Space,
    Is(char),
    Any(char, char, char),
}

pub open spec fn in_class(k: Class, c: char) -> bool {
    match k {
        Class::Space => space(c),
        Class::Is(a) => c == a,
        Class::Any(a, b, d) => c == a || c == b || c == d,
    }
}

fn is_in_class(k: Class, c: char) -> (r: bool)
    ensures
        r == in_class(k, c),
{
    match k {
        Class::Space => is_space(c),
        Class::Is(a) => c == a,
        Class::Any(a, b, d) => c == a || c == b || c == d,
    }
}

/// `s` without its leading characters of the class `k`.
pub open spec fn front_trimmed(s: Seq<char>, k: Class) -> Seq<char>
    decreases s.len(),
{
    if s.len() > 0 && in_class(k, s[0]) {
        front_trimmed(s.skip(1), k)
    } else {
        s
    }
}

/// `s` without its trailing characters of the class `k`.
pub open spec fn back_trimmed(s: Seq<char>, k: Class) -> Seq<char>
    decreases s.len(),
{
    if s.len() > 0 && in_class(k, s.last()) {
        back_trimmed(s.drop_last(), k)
    } else {
        s
    }
}

pub open spec fn trimmed(s: Seq<char>) -> Seq<char> {
    back_trimmed(front_trimmed(s, Class::Space), Class::Space)
}

/// `s` without leading slashes: a path inside an archive.
pub open spec fn unrooted(s: Seq<char>) -> Seq<char> {
    front_trimmed(s, Class::Is('/'))
}

pub fn trim_front<'a>(s: &'a [char], k: Class) -> (r: &'a [char])
    ensures
        r@ == front_trimmed(s@, k),
{
    let mut i: usize = 0;
    assert(s@.skip(0) =~= s@);
    while i < s.len() && is_in_class(k, s[i])
        invariant
            i <= s@.len(),
            front_trimmed(s@.skip(i as int), k) == front_trimmed(s@, k),
        decreases s@.len() - i,
    {
        assert(s@.skip(i as int).skip(1) =~= s@.skip(i + 1));
        i = i + 1;
    }
    let r = &s[i..s.len()];
    assert(r@ =~= s@.skip(i as int));
    r
}

pub fn trim_back<'a>(s: &'a [char], k: Class) -> (r: &'a [char])
    ensures
        r@ == back_trimmed(s@, k),
{
    let mut n: usize = s.len();
    assert(s@.take(n as int) =~= s@);
    while n > 0 && is_in_class(k, s[n - 1])
        invariant
            n <= s@.len(),
            back_trimmed(s@.take(n as int), k) == back_trimmed(s@, k),
        decreases n,
    {
        assert(s@.take(n as int).drop_last() =~= s@.take(n - 1));
        n = n - 1;
    }
    let r = &s[0..n];
    assert(r@ =~= s@.take(n as int));
    r
}

pub fn trim<'a>(s: &'a [char]) -> (r: &'a [char])
    ensures
        r@ == trimmed(s@),
{
    trim_back(trim_front(s, Class::Space), Class::Space)
}

pub fn unroot<'a>(s: &'a [char]) -> (r: &'a [char])
    ensures
        r@ == unrooted(s@),
{
    trim_front(s, Class::Is('/'))
}

pub fn unroot_str(s: &str) -> (r: String)
    ensures
        r@ == unrooted(s@),
{
    let c = chars_of(s);
    string_of(unroot(c.as_slice()))
}

/// `s` with every copy of `p` taken off its end.
pub open spec fn without_suffixes(s: Seq<char>, p: Seq<char>) -> Seq<char>
    decreases s.len(),
{
    if p.len() > 0 && p.is_suffix_of(s) {
        without_suffixes(s.take(s.len() - p.len()), p)
    } else {
        s
    }
}

pub fn trim_suffixes<'a>(s: &'a [char], p: &str) -> (r: &'a [char])
    ensures
        r@ == without_suffixes(s@, p@),
{
    let c = chars_of(p);
    let mut n: usize = s.len();
    assert(s@.take(n as int) =~= s@);
    while c.len() > 0 && ends_with(&s[0..n], c.as_slice())
        invariant
            n <= s@.len(),
            c@ == p@,
            without_suffixes(s@.take(n as int), p@) == without_suffixes(s@, p@),
        decreases n,
    {
        assert(s@.subrange(0, n as int) =~= s@.take(n as int));
        assert(s@.take(n as int).take(n - c@.len()) =~= s@.take(n - c@.len()));
        n = n - c.len();
    }
    let r = &s[0..n];
    assert(r@ =~= s@.take(n as int));
    r
}

// ------------------------------------------------------------ searching ---

pub open spec fn occurs_at(s: Seq<char>, p: Seq<char>, i: int) -> bool {
    &&& 0 <= i
    &&& i + p.len() <= s.len()
    &&& s.subrange(i, i + p.len()) == p
}

/// Whether `p` stands anywhere in `s`.
pub open spec fn carries(s: Seq<char>, p: Seq<char>) -> bool {
    exists|i: int| #[trigger] occurs_at(s, p, i)
}

/// The first place at or after `from` where `p` stands in `s`.
pub open spec fn found_from(s: Seq<char>, p: Seq<char>, from: int) -> Option<int>
    decreases s.len() - from,
{
    if from + p.len() > s.len() {
        None
    } else if occurs_at(s, p, from) {
        Some(from)
    } else if from + p.len() == s.len() {
        None
    } else {
        found_from(s, p, from + 1)
    }
}

pub proof fn lemma_found(s: Seq<char>, p: Seq<char>, from: int)
    requires
        0 <= from,
    ensures
        match found_from(s, p, from) {
            Some(i) => from <= i && occurs_at(s, p, i) && forall|j: int|
                from <= j < i ==> !#[trigger] occurs_at(s, p, j),
            None => forall|j: int| from <= j ==> !#[trigger] occurs_at(s, p, j),
        },
    decreases s.len() - from,
{
    if from + p.len() < s.len() && !occurs_at(s, p, from) {
        lemma_found(s, p, from + 1);
    }
}

pub fn find_sub(s: &[char], p: &[char]) -> (r: Option<usize>)
    ensures
        match r {
            Some(i) => found_from(s@, p@, 0) == Some(i as int) && i + p@.len() <= s@.len(),
            None => found_from(s@, p@, 0) is None,
        },
{
    if p.len() > s.len() {
        return None;
    }
    let mut i: usize = 0;
    while i <= s.len() - p.len()
        invariant
            p@.len() <= s@.len(),
            i <= s@.len() - p@.len() + 1,
            found_from(s@, p@, 0) == found_from(s@, p@, i as int),
        decreases s@.len() - i,
    {
        if same(&s[i..i + p.len()], p) {
            return Some(i);
        }
        if i == s.len() - p.len() {
            assert(!occurs_at(s@, p@, i as int));
            return None;
        }
        i = i + 1;
    }
    None
}

pub fn contains_sub(s: &[char], p: &[char]) -> (r: bool)
    ensures
        r == carries(s@, p@),
{
    proof {
        lemma_found(s@, p@, 0);
    }
    match find_sub(s, p) {
        Some(_i) => true,
        None => false,
    }
}

pub fn holds(s: &[char], p: &str) -> (r: bool)
    ensures
        r == carries(s@, p@),
{
    let c = chars_of(p);
    contains_sub(s, c.as_slice())
}

/// The place of the first `c` in `s`.
pub open spec fn first_of(s: Seq<char>, c: char) -> Option<int>
    decreases s.len(),
{
    if s.len() == 0 {
        None
    } else {
        match first_of(s.drop_last(), c) {
            Some(i) => Some(i),
            None => if s.last() == c {
                Some(s.len() - 1)
            } else {
                None
            },
        }
    }
}

/// The place of the last `c` in `s`.
pub open spec fn last_of(s: Seq<char>, c: char) -> Option<int>
    decreases s.len(),
{
    if s.len() == 0 {
        None
    } else if s.last() == c {
        Some(s.len() - 1)
    } else {
        last_of(s.drop_last(), c)
    }
}

pub proof fn lemma_first_of(s: Seq<char>, c: char)
    ensures
        match first_of(s, c) {
            Some(i) => 0 <= i < s.len() && s[i] == c && forall|j: int|
                0 <= j < i ==> s[j] != c,
            None => !s.contains(c),
        },
    decreases s.len(),
{
    if s.len() > 0 {
        lemma_first_of(s.drop_last(), c);
        assert(s =~= s.drop_last().push(s.last()));
        assert forall|j: int| 0 <= j < s.len() - 1 implies s[j] == s.drop_last()[j] by {}
        if first_of(s, c) is None {
            assert forall|j: int| 0 <= j < s.len() implies s[j] != c by {
                if j < s.len() - 1 {
                    assert(s.drop_last().contains(s.drop_last()[j]));
                }
            }
        } else if first_of(s.drop_last(), c) is None {
            assert forall|j: int| 0 <= j < s.len() - 1 implies s[j] != c by {
                assert(s.drop_last().contains(s.drop_last()[j]));
            }
        }
    }
}

pub proof fn lemma_last_of(s: Seq<char>, c: char)
    ensures
        match last_of(s, c) {
            Some(i) => 0 <= i < s.len() && s[i] == c && forall|j: int|
                i < j < s.len() ==> s[j] != c,
            None => !s.contains(c),
        },
    decreases s.len(),
{
    if s.len() > 0 && s.last() != c {
        lemma_last_of(s.drop_last(), c);
        if last_of(s, c) is None {
            assert forall|j: int| 0 <= j < s.len() implies s[j] != c by {
                if j < s.len() - 1 {
                    assert(s.drop_last().contains(s.drop_last()[j]));
                }
            }
        } else {
            let i = last_of(s, c)->0;
            assert(s.drop_last()[i] == s[i]);
            assert forall|j: int| i < j < s.len() implies s[j] != c by {
                if j < s.len() - 1 {
                    assert(s.drop_last()[j] == s[j]);
                }
            }
        }
    }
}

pub fn find_char(s: &[char], c: char) -> (r: Option<usize>)
    ensures
        match r {
            Some(i) => first_of(s@, c) == Some(i as int) && i < s@.len(),
            None => first_of(s@, c) is None,
        },
{
    let mut i: usize = 0;
    while i < s.len()
        invariant
            i <= s@.len(),
            first_of(s@.take(i as int), c) is None,
        decreases s@.len() - i,
    {
        assert(s@.take(i + 1).drop_last() =~= s@.take(i as int));
        if s[i] == c {
            proof {
                lemma_first_of_extends(s@, i + 1, c);
            }
            return Some(i);
        }
        i = i + 1;
    }
    assert(s@.take(i as int) =~= s@);
    None
}

proof fn lemma_first_of_extends(s: Seq<char>, n: int, c: char)
    requires
        0 <= n <= s.len(),
        first_of(s.take(n), c) is Some,
    ensures
        first_of(s, c) == first_of(s.take(n), c),
    decreases s.len() - n,
{
    if n == s.len() {
        assert(s.take(n) =~= s);
    } else {
        assert(s.take(n + 1).drop_last() =~= s.take(n));
        lemma_first_of_extends(s, n + 1, c);
    }
}

pub fn rfind_char(s: &[char], c: char) -> (r: Option<usize>)
    ensures
        match r {
            Some(i) => last_of(s@, c) == Some(i as int) && i < s@.len(),
            None => last_of(s@, c) is None,
        },
{
    let mut n: usize = s.len();
    assert(s@.take(n as int) =~= s@);
    while n > 0
        invariant
            n <= s@.len(),
            last_of(s@.take(n as int), c) == last_of(s@, c),
        decreases n,
    {
        assert(s@.take(n as int).drop_last() =~= s@.take(n - 1));
        if s[n - 1] == c {
            return Some(n - 1);
        }
        n = n - 1;
    }
    None
}

pub fn has_char(s: &[char], c: char) -> (r: bool)
    ensures
        r == s@.contains(c),
{
    proof {
        lemma_first_of(s@, c);
    }
    match find_char(s, c) {
        Some(_i) => true,
        None => false,
    }
}

// ------------------------------------------------------------ splitting ---

/// The two sides of the first `c`.
pub open spec fn halves(s: Seq<char>, c: char) -> Option<(Seq<char>, Seq<char>)> {
    match first_of(s, c) {
        Some(i) => Some((s.take(i), s.skip(i + 1))),
        None => None,
    }
}

/// The two sides of the last `c`.
pub open spec fn rhalves(s: Seq<char>, c: char) -> Option<(Seq<char>, Seq<char>)> {
    match last_of(s, c) {
        Some(i) => Some((s.take(i), s.skip(i + 1))),
        None => None,
    }
}

pub open spec fn opt_pair(o: Option<(&[char], &[char])>) -> Option<(Seq<char>, Seq<char>)> {
    match o {
        Some(p) => Some((p.0@, p.1@)),
        None => None,
    }
}

pub fn split_once<'a>(s: &'a [char], c: char) -> (r: Option<(&'a [char], &'a [char])>)
    ensures
        opt_pair(r) == halves(s@, c),
{
    match find_char(s, c) {
        Some(i) => {
            let n: usize = s.len();
            let a = &s[0..i];
            let b = &s[i + 1..n];
            assert(a@ =~= s@.take(i as int));
            assert(b@ =~= s@.skip(i + 1));
            Some((a, b))
        },
        None => None,
    }
}

pub fn rsplit_once<'a>(s: &'a [char], c: char) -> (r: Option<(&'a [char], &'a [char])>)
    ensures
        opt_pair(r) == rhalves(s@, c),
{
    match rfind_char(s, c) {
        Some(i) => {
            let n: usize = s.len();
            let a = &s[0..i];
            let b = &s[i + 1..n];
            assert(a@ =~= s@.take(i as int));
            assert(b@ =~= s@.skip(i + 1));
            Some((a, b))
        },
        None => None,
    }
}

/// The pieces of `s` between the separators `c`, empty ones included.
pub open spec fn pieces(s: Seq<char>, c: char) -> Seq<Seq<char>>
    decreases s.len(),
{
    if s.len() == 0 {
        seq![Seq::empty()]
    } else {
        let p = pieces(s.drop_last(), c);
        if s.last() == c {
            p.push(Seq::empty())
        } else {
            p.update(p.len() - 1, p.last().push(s.last()))
        }
    }
}

pub proof fn lemma_pieces_nonempty(s: Seq<char>, c: char)
    ensures
        pieces(s, c).len() >= 1,
    decreases s.len(),
{
    if s.len() > 0 {
        lemma_pieces_nonempty(s.drop_last(), c);
    }
}

pub fn split<'a>(s: &'a [char], c: char) -> (r: Vec<&'a [char]>)
    ensures
        parts(r@) == pieces(s@, c),
        r@.len() >= 1,
{
    let mut r: Vec<&'a [char]> = Vec::new();
    let mut start: usize = 0;
    let mut i: usize = 0;
    assert(s@.subrange(0, 0) =~= Seq::<char>::empty());
    assert(pieces(s@.take(0), c) =~= seq![Seq::<char>::empty()]);
    assert(parts(r@).push(s@.subrange(0, 0)) =~= pieces(s@.take(0), c));
    while i < s.len()
        invariant
            start <= i <= s@.len(),
            parts(r@).push(s@.subrange(start as int, i as int)) =~= pieces(s@.take(i as int), c),
        decreases s@.len() - i,
    {
        assert(s@.take(i + 1).drop_last() =~= s@.take(i as int));
        let ghost p = pieces(s@.take(i as int), c);
        if s[i] == c {
            let ghost before = parts(r@);
            r.push(&s[start..i]);
            assert(parts(r@) =~= before.push(s@.subrange(start as int, i as int)));
            start = i + 1;
            assert(s@.subrange(start as int, i + 1) =~= Seq::<char>::empty());
        } else {
            assert(p.last() == s@.subrange(start as int, i as int));
            assert(s@.subrange(start as int, i + 1) =~= p.last().push(s@[i as int]));
        }
        i = i + 1;
    }
    assert(s@.take(i as int) =~= s@);
    let ghost before = parts(r@);
    r.push(&s[start..s.len()]);
    assert(parts(r@) =~= before.push(s@.subrange(start as int, s@.len() as int)));
    r
}

/// A text without the separator is its own only piece, and the pieces of two
/// texts around a separator are those of the one and those of the other.
pub proof fn lemma_pieces_around(a: Seq<char>, b: Seq<char>, c: char)
    requires
        !a.contains(c),
    ensures
        pieces(a, c) == seq![a],
        pieces(a.push(c) + b, c) == seq![a] + pieces(b, c),
    decreases a.len() + b.len(),
{
    if b.len() > 0 {
        let s = a.push(c) + b;
        let t = a.push(c) + b.drop_last();
        lemma_pieces_around(a, b.drop_last(), c);
        lemma_pieces_nonempty(b.drop_last(), c);
        assert(s.drop_last() =~= t);
        assert(s.last() == b.last());
        let p = pieces(b.drop_last(), c);
        assert((seq![a] + p).last() == p.last());
        assert(pieces(s, c) =~= seq![a] + pieces(b, c));
    } else {
        assert(a.push(c) + b =~= a.push(c));
        assert(a.push(c).drop_last() =~= a);
        if a.len() > 0 {
            let f = a.drop_last();
            assert(forall|i: int| 0 <= i < f.len() ==> f[i] == a[i]);
            if f.contains(c) {
                let i = f.index_of(c);
                assert(a[i] == c);
            }
            lemma_pieces_around(f, b, c);
            assert(a.contains(a[a.len() - 1]));
            assert(f.push(a.last()) =~= a);
            assert(pieces(a, c) =~= seq![a]);
        } else {
            assert(a =~= Seq::<char>::empty());
            assert(pieces(a, c) =~= seq![a]);
        }
        assert(a.push(c).last() == c);
        assert(pieces(a.push(c), c) =~= seq![a].push(Seq::<char>::empty()));
        assert(seq![a] + pieces(b, c) =~= seq![a].push(Seq::<char>::empty()));
    }
}

/// The pieces of two texts around a separator are those of the one and those of
/// the other.
pub proof fn lemma_pieces_joined(a: Seq<char>, b: Seq<char>, c: char)
    ensures
        pieces(a.push(c) + b, c) == pieces(a, c) + pieces(b, c),
    decreases b.len(),
{
    let s = a.push(c) + b;
    let p = pieces(a, c);
    if b.len() > 0 {
        let d = b.drop_last();
        lemma_pieces_joined(a, d, c);
        lemma_pieces_nonempty(d, c);
        assert(s.drop_last() =~= a.push(c) + d);
        assert((p + pieces(d, c)).last() == pieces(d, c).last());
        assert(pieces(s, c) =~= p + pieces(b, c));
    } else {
        assert(s =~= a.push(c));
        assert(s.drop_last() =~= a);
        assert(pieces(s, c) =~= p + pieces(b, c));
    }
}

/// The `n`-th piece, if there is one.
pub open spec fn piece(s: Seq<char>, c: char, n: int) -> Option<Seq<char>> {
    if 0 <= n < pieces(s, c).len() {
        Some(pieces(s, c)[n])
    } else {
        None
    }
}

pub fn nth_piece<'a>(s: &'a [char], c: char, n: usize) -> (r: Option<&'a [char]>)
    ensures
        opt(r) == piece(s@, c, n as int),
{
    let v = split(s, c);
    if n < v.len() {
        assert(parts(v@)[n as int] == v@[n as int]@);
        Some(v[n])
    } else {
        None
    }
}

/// The runs of characters that are not white space.
pub open spec fn words(s: Seq<char>) -> Seq<Seq<char>>
    decreases s.len(),
{
    if s.len() == 0 {
        Seq::empty()
    } else {
        let p = words(s.drop_last());
        if space(s.last()) {
            p
        } else if s.len() == 1 || space(s[s.len() - 2]) {
            p.push(seq![s.last()])
        } else {
            p.update(p.len() - 1, p.last().push(s.last()))
        }
    }
}

pub fn split_words<'a>(s: &'a [char]) -> (r: Vec<&'a [char]>)
    ensures
        parts(r@) == words(s@),
{
    let mut r: Vec<&'a [char]> = Vec::new();
    // where the word being read began; `i` itself when none is open
    let mut start: usize = 0;
    let mut i: usize = 0;
    assert(parts(r@) =~= words(s@.take(0)));
    while i < s.len()
        invariant
            start <= i <= s@.len(),
            start == i <==> (i == 0 || space(s@[i - 1])),
            words(s@.take(i as int)) =~= (if start == i {
                parts(r@)
            } else {
                parts(r@).push(s@.subrange(start as int, i as int))
            }),
        decreases s@.len() - i,
    {
        let ghost t = s@.take(i + 1);
        assert(t.drop_last() =~= s@.take(i as int));
        assert(t.last() == s@[i as int]);
        if is_space(s[i]) {
            if start < i {
                let ghost before = parts(r@);
                r.push(&s[start..i]);
                assert(parts(r@) =~= before.push(s@.subrange(start as int, i as int)));
            }
            start = i + 1;
        } else {
            if start == i {
                assert(s@.subrange(start as int, i + 1) =~= seq![s@[i as int]]);
                if i > 0 {
                    assert(t[t.len() - 2] == s@[i - 1]);
                }
            } else {
                assert(t[t.len() - 2] == s@[i - 1]);
                assert(s@.subrange(start as int, i + 1) =~= s@.subrange(start as int, i as int).push(s@[i as int]));
                let ghost p = words(s@.take(i as int));
                assert(p.last() =~= s@.subrange(start as int, i as int));
            }
        }
        i = i + 1;
    }
    assert(s@.take(i as int) =~= s@);
    if start < i {
        let ghost before = parts(r@);
        r.push(&s[start..i]);
        assert(parts(r@) =~= before.push(s@.subrange(start as int, i as int)));
    }
    r
}

/// `s` without one trailing carriage return.
pub open spec fn without_return(s: Seq<char>) -> Seq<char> {
    if s.len() > 0 && s.last() == '\r' {
        s.drop_last()
    } else {
        s
    }
}

/// The lines of `s`: the pieces between line feeds, each without the carriage
/// return before its line feed; an empty remainder is no line.
pub open spec fn lines(s: Seq<char>) -> Seq<Seq<char>> {
    let p = pieces(s, '\n');
    let n = p.len() - 1;
    let done = Seq::new(n as nat, |i: int| without_return(p[i]));
    if p.last().len() == 0 {
        done
    } else {
        done.push(p.last())
    }
}

/// The lines of a text that begins with a line are that line and those of the
/// rest.
pub proof fn lemma_first_line(a: Seq<char>, rest: Seq<char>)
    requires
        !a.contains('\n'),
        a.len() > 0 ==> a.last() != '\r',
    ensures
        lines(a.push('\n') + rest) == seq![a] + lines(rest),
{
    let s = a.push('\n') + rest;
    lemma_pieces_around(a, rest, '\n');
    lemma_pieces_nonempty(rest, '\n');
    let p = pieces(s, '\n');
    let q = pieces(rest, '\n');
    assert(p.last() == q.last());
    assert forall|i: int| 0 < i < p.len() implies #[trigger] p[i] == q[i - 1] by {}
    assert(p[0] == a);
    assert(lines(s) =~= seq![a] + lines(rest));
}

/// What stands on the two sides of a separator that the first side does not hold.
pub proof fn lemma_halves_around(a: Seq<char>, b: Seq<char>, c: char)
    requires
        !a.contains(c),
    ensures
        halves(a.push(c) + b, c) == Some((a, b)),
{
    let s = a.push(c) + b;
    lemma_first_of(s, c);
    assert(s[a.len() as int] == c);
    assert(s.contains(c));
    let i = first_of(s, c)->0;
    if i < a.len() {
        assert(s[i] == a[i]);
        assert(a.contains(a[i]));
    }
    assert(s.take(i) =~= a);
    assert(s.skip(i + 1) =~= b);
}

pub fn split_lines<'a>(s: &'a [char]) -> (r: Vec<&'a [char]>)
    ensures
        parts(r@) == lines(s@),
{
    let v = split(s, '\n');
    let mut r: Vec<&'a [char]> = Vec::new();
    let n: usize = v.len() - 1;
    let mut i: usize = 0;
    let ghost p = pieces(s@, '\n');
    assert(parts(v@) == p);
    while i < n
        invariant
            i <= n,
            n == v@.len() - 1,
            parts(v@) == p,
            r@.len() == i,
            forall|j: int| 0 <= j < i ==> r@[j]@ == without_return(p[j]),
        decreases n - i,
    {
        let l = v[i];
        assert(parts(v@)[i as int] == l@);
        if l.len() > 0 && l[l.len() - 1] == '\r' {
            let t = &l[0..l.len() - 1];
            assert(t@ =~= l@.drop_last());
            r.push(t);
        } else {
            r.push(l);
        }
        i = i + 1;
    }
    assert(parts(v@)[n as int] == v@[n as int]@);
    if v[n].len() > 0 {
        r.push(v[n]);
    }
    assert(parts(r@) =~= lines(s@));
    r
}

// ----------------------------------------------------------- rewriting ---

pub open spec fn lower_char(c: char) -> char {
    if 'A' <= c && c <= 'Z' {
        ((c as u32 + 32) as u32) as char
    } else {
        c
    }
}

/// `s` with its ASCII capitals made small.
pub open spec fn lowered(s: Seq<char>) -> Seq<char> {
    Seq::new(s.len(), |i: int| lower_char(s[i]))
}

fn lower_one(c: char) -> (r: char)
    ensures
        r == lower_char(c),
{
    if 'A' <= c && c <= 'Z' {
        let n: u8 = c as u8;
        let m: u8 = n + 32;
        m as char
    } else {
        c
    }
}

pub fn lower(s: &[char]) -> (r: Vec<char>)
    ensures
        r@ == lowered(s@),
{
    let mut r: Vec<char> = Vec::new();
    let mut i: usize = 0;
    while i < s.len()
        invariant
            i <= s@.len(),
            r@ =~= lowered(s@).take(i as int),
        decreases s@.len() - i,
    {
        r.push(lower_one(s[i]));
        i = i + 1;
    }
    r
}

/// `s` with every `a` and every `b` made `c`.
pub open spec fn with_for(s: Seq<char>, a: char, b: char, c: char) -> Seq<char> {
    Seq::new(
        s.len(),
        |i: int|
            if s[i] == a || s[i] == b {
                c
            } else {
                s[i]
            },
    )
}

pub fn replace(s: &[char], a: char, b: char, c: char) -> (r: Vec<char>)
    ensures
        r@ == with_for(s@, a, b, c),
{
    let mut r: Vec<char> = Vec::new();
    let mut i: usize = 0;
    while i < s.len()
        invariant
            i <= s@.len(),
            r@ =~= with_for(s@, a, b, c).take(i as int),
        decreases s@.len() - i,
    {
        if s[i] == a || s[i] == b {
            r.push(c);
        } else {
            r.push(s[i]);
        }
        i = i + 1;
    }
    r
}

/// The parts with `sep` between them.
pub open spec fn joined(p: Seq<Seq<char>>, sep: Seq<char>) -> Seq<char>
    decreases p.len(),
{
    if p.len() == 0 {
        Seq::empty()
    } else if p.len() == 1 {
        p[0]
    } else {
        joined(p.drop_last(), sep) + sep + p.last()
    }
}

pub fn join(p: &Vec<String>, sep: &str) -> (r: String)
    ensures
        r@ == joined(texts(p@), sep@),
{
    let mut r = String::new();
    let mut i: usize = 0;
    assert(texts(p@).take(0) =~= Seq::<Seq<char>>::empty());
    while i < p.len()
        invariant
            i <= p@.len(),
            r@ == joined(texts(p@).take(i as int), sep@),
        decreases p@.len() - i,
    {
        let ghost t = texts(p@).take(i + 1);
        assert(t.drop_last() =~= texts(p@).take(i as int));
        assert(t.last() == p@[i as int]@);
        if i > 0 {
            r.append(sep);
        }
        r.append(p[i].as_str());
        assert(r@ =~= joined(t, sep@));
        i = i + 1;
    }
    assert(texts(p@).take(i as int) =~= texts(p@));
    r
}

// -------------------------------------------------------------- ordering ---

/// Dictionary order by character: `a` comes strictly before `b`.
pub open spec fn precedes(a: Seq<char>, b: Seq<char>) -> bool
    decreases a.len(),
{
    if b.len() == 0 {
        false
    } else if a.len() == 0 {
        true
    } else if a[0] == b[0] {
        precedes(a.skip(1), b.skip(1))
    } else {
        a[0] < b[0]
    }
}

pub fn before(a: &[char], b: &[char]) -> (r: bool)
    ensures
        r == precedes(a@, b@),
{
    let mut i: usize = 0;
    assert(a@.skip(0) =~= a@);
    assert(b@.skip(0) =~= b@);
    while i < a.len() && i < b.len()
        invariant
            i <= a@.len(),
            i <= b@.len(),
            precedes(a@, b@) == precedes(a@.skip(i as int), b@.skip(i as int)),
        decreases a@.len() - i,
    {
        let ghost x = a@.skip(i as int);
        let ghost y = b@.skip(i as int);
        assert(x[0] == a@[i as int] && y[0] == b@[i as int]);
        if a[i] != b[i] {
            return a[i] < b[i];
        }
        assert(x.skip(1) =~= a@.skip(i + 1));
        assert(y.skip(1) =~= b@.skip(i + 1));
        i = i + 1;
    }
    i < b.len()
}

pub fn str_before(a: &str, b: &str) -> (r: bool)
    ensures
        r == precedes(a@, b@),
{
    let x = chars_of(a);
    let y = chars_of(b);
    before(x.as_slice(), y.as_slice())
}

/// `x` put into the ordered list `s`, after everything it does not precede.
pub open spec fn inserted(s: Seq<Seq<char>>, x: Seq<char>) -> Seq<Seq<char>>
    decreases s.len(),
{
    if s.len() > 0 && precedes(x, s.last()) {
        inserted(s.drop_last(), x).push(s.last())
    } else {
        s.push(x)
    }
}

/// The list in dictionary order.
pub open spec fn ordered(s: Seq<Seq<char>>) -> Seq<Seq<char>>
    decreases s.len(),
{
    if s.len() == 0 {
        s
    } else {
        inserted(ordered(s.drop_last()), s.last())
    }
}

/// `a` does not come after `b`.
pub open spec fn up_to(a: Seq<char>, b: Seq<char>) -> bool {
    !precedes(b, a)
}

pub open spec fn in_order(s: Seq<Seq<char>>) -> bool {
    vstd::relations::sorted_by(s, |a: Seq<char>, b: Seq<char>| up_to(a, b))
}

/// Of two texts either one comes before the other or they are the same.
pub proof fn one_precedes_the_other(a: Seq<char>, b: Seq<char>)
    ensures
        precedes(a, b) ==> !precedes(b, a) && a != b,
        a == b ==> !precedes(a, b),
        !precedes(a, b) && !precedes(b, a) ==> a == b,
    decreases a.len(),
{
    if a.len() > 0 && b.len() > 0 && a[0] == b[0] {
        one_precedes_the_other(a.skip(1), b.skip(1));
        if a.skip(1) == b.skip(1) {
            assert(a =~= seq![a[0]] + a.skip(1));
            assert(b =~= seq![b[0]] + b.skip(1));
        }
    } else if a.len() == 0 && b.len() == 0 {
        assert(a =~= b);
    }
}

proof fn lemma_up_to_transitive(a: Seq<char>, b: Seq<char>, c: Seq<char>)
    requires
        up_to(a, b),
        up_to(b, c),
    ensures
        up_to(a, c),
    decreases a.len(),
{
    if a.len() > 0 && b.len() > 0 && c.len() > 0 && a[0] == b[0] && b[0] == c[0] {
        lemma_up_to_transitive(a.skip(1), b.skip(1), c.skip(1));
    }
}

proof fn lemma_total()
    ensures
        vstd::relations::total_ordering(|a: Seq<char>, b: Seq<char>| up_to(a, b)),
{
    let r = |a: Seq<char>, b: Seq<char>| up_to(a, b);
    assert forall|a: Seq<char>, b: Seq<char>| true implies #[trigger] r(a, b) || r(b, a) by {
        one_precedes_the_other(a, b);
    }
    assert forall|a: Seq<char>| #[trigger] r(a, a) by {
        one_precedes_the_other(a, a);
    }
    assert forall|a: Seq<char>, b: Seq<char>| #[trigger] r(a, b) && #[trigger] r(b, a) implies a
        == b by {
        one_precedes_the_other(a, b);
    }
    assert forall|a: Seq<char>, b: Seq<char>, c: Seq<char>| #[trigger]
        r(a, b) && #[trigger] r(b, c) implies r(a, c) by {
        lemma_up_to_transitive(a, b, c);
    }
}

proof fn lemma_inserted(s: Seq<Seq<char>>, x: Seq<char>)
    requires
        in_order(s),
    ensures
        in_order(inserted(s, x)),
        inserted(s, x).to_multiset() == s.to_multiset().insert(x),
    decreases s.len(),
{
    broadcast use vstd::seq_lib::group_to_multiset_ensures;
    broadcast use vstd::multiset::group_multiset_axioms;

    let r = |a: Seq<char>, b: Seq<char>| up_to(a, b);
    if s.len() > 0 && precedes(x, s.last()) {
        let p = s.drop_last();
        assert forall|i: int, j: int| 0 <= i < j < p.len() implies #[trigger] r(p[i], p[j]) by {
            assert(r(s[i], s[j]));
        }
        lemma_inserted(p, x);
        let q = inserted(p, x);
        let t = q.push(s.last());
        assert(s =~= p.push(s.last()));
        assert(t.to_multiset() =~= s.to_multiset().insert(x));
        assert forall|i: int, j: int| 0 <= i < j < t.len() implies #[trigger] r(t[i], t[j]) by {
            if j < q.len() {
                assert(r(q[i], q[j]));
            } else {
                assert(q.to_multiset().contains(q[i]));
                one_precedes_the_other(x, s.last());
                if q[i] != x {
                    assert(p.to_multiset().contains(q[i]));
                    let k = p.index_of(q[i]);
                    assert(r(s[k], s[s.len() - 1]));
                }
            }
        }
    } else {
        let t = s.push(x);
        assert forall|i: int, j: int| 0 <= i < j < t.len() implies #[trigger] r(t[i], t[j]) by {
            if j < s.len() {
                assert(r(s[i], s[j]));
            } else if i < s.len() - 1 {
                assert(r(s[i], s[s.len() - 1]));
                lemma_up_to_transitive(s[i], s.last(), x);
            }
        }
    }
}

/// Ordering a list puts it into dictionary order and keeps its entries.
pub proof fn ordered_is_in_order(s: Seq<Seq<char>>)
    ensures
        in_order(ordered(s)),
        ordered(s).to_multiset() == s.to_multiset(),
    decreases s.len(),
{
    broadcast use vstd::seq_lib::group_to_multiset_ensures;

    if s.len() > 0 {
        ordered_is_in_order(s.drop_last());
        lemma_inserted(ordered(s.drop_last()), s.last());
        assert(s =~= s.drop_last().push(s.last()));
    }
}

/// A list in order has no other arrangement in order.
proof fn lemma_ordered_unique(s: Seq<Seq<char>>, t: Seq<Seq<char>>)
    requires
        in_order(t),
        t.to_multiset() == s.to_multiset(),
    ensures
        t == ordered(s),
{
    ordered_is_in_order(s);
    lemma_total();
    vstd::seq_lib::lemma_sorted_unique(
        t,
        ordered(s),
        |a: Seq<char>, b: Seq<char>| up_to(a, b),
    );
}

proof fn lemma_between(t: Seq<Seq<char>>, x: Seq<char>)
    requires
        in_order(t),
        t.len() > 0 ==> up_to(t.last(), x),
    ensures
        in_order(t.push(x)),
{
    let r = |a: Seq<char>, b: Seq<char>| up_to(a, b);
    let u = t.push(x);
    assert forall|i: int, j: int| 0 <= i < j < u.len() implies #[trigger] r(u[i], u[j]) by {
        if j < t.len() {
            assert(r(t[i], t[j]));
        } else if i < t.len() - 1 {
            assert(r(t[i], t[t.len() - 1]));
            lemma_up_to_transitive(t[i], t.last(), x);
        }
    }
}

proof fn lemma_in_order_step(s: Seq<Seq<char>>, i: int)
    requires
        in_order(s),
        0 < i < s.len(),
    ensures
        up_to(s[i - 1], s[i]),
{
    let r = |a: Seq<char>, b: Seq<char>| up_to(a, b);
    assert(r(s[i - 1], s[i]));
}

fn merge(a: &Vec<String>, b: &Vec<String>) -> (r: Vec<String>)
    requires
        in_order(texts(a@)),
        in_order(texts(b@)),
    ensures
        in_order(texts(r@)),
        texts(r@).to_multiset() == texts(a@).to_multiset().add(texts(b@).to_multiset()),
{
    let mut r: Vec<String> = Vec::new();
    let mut i: usize = 0;
    let mut j: usize = 0;
    let ghost x = texts(a@);
    let ghost y = texts(b@);
    proof {
        broadcast use vstd::seq_lib::group_to_multiset_ensures;
        broadcast use vstd::multiset::group_multiset_axioms;

        assert(texts(r@) =~= Seq::<Seq<char>>::empty());
        assert(x.take(0) =~= Seq::<Seq<char>>::empty());
        assert(y.take(0) =~= Seq::<Seq<char>>::empty());
        assert(texts(r@).to_multiset() =~= x.take(0).to_multiset().add(y.take(0).to_multiset()));
    }
    while i < a.len() || j < b.len()
        invariant
            i <= x.len(),
            j <= y.len(),
            x == texts(a@),
            y == texts(b@),
            in_order(x),
            in_order(y),
            in_order(texts(r@)),
            texts(r@).to_multiset() == x.take(i as int).to_multiset().add(
                y.take(j as int).to_multiset(),
            ),
            r@.len() > 0 && i < x.len() ==> up_to(texts(r@).last(), x[i as int]),
            r@.len() > 0 && j < y.len() ==> up_to(texts(r@).last(), y[j as int]),
        decreases x.len() - i + y.len() - j,
    {
        broadcast use vstd::seq_lib::group_to_multiset_ensures;
        broadcast use vstd::multiset::group_multiset_axioms;

        let ghost before = texts(r@);
        let first = if i >= a.len() {
            false
        } else if j >= b.len() {
            true
        } else {
            !str_before(b[j].as_str(), a[i].as_str())
        };
        if first {
            proof {
                lemma_between(before, x[i as int]);
                assert(x.take(i + 1) =~= x.take(i as int).push(x[i as int]));
                if j < y.len() {
                    one_precedes_the_other(x[i as int], y[j as int]);
                }
                if i + 1 < x.len() {
                    lemma_in_order_step(x, i + 1);
                }
            }
            r.push(a[i].clone());
            assert(texts(r@) =~= before.push(x[i as int]));
            assert(texts(r@).to_multiset() =~= x.take(i + 1).to_multiset().add(
                y.take(j as int).to_multiset(),
            ));
            i = i + 1;
        } else {
            proof {
                lemma_between(before, y[j as int]);
                assert(y.take(j + 1) =~= y.take(j as int).push(y[j as int]));
                if i < x.len() {
                    one_precedes_the_other(y[j as int], x[i as int]);
                }
                if j + 1 < y.len() {
                    lemma_in_order_step(y, j + 1);
                }
            }
            r.push(b[j].clone());
            assert(texts(r@) =~= before.push(y[j as int]));
            assert(texts(r@).to_multiset() =~= x.take(i as int).to_multiset().add(
                y.take(j + 1).to_multiset(),
            ));
            j = j + 1;
        }
    }
    assert(x.take(i as int) =~= x);
    assert(y.take(j as int) =~= y);
    r
}

fn sort_range(v: &Vec<String>, lo: usize, hi: usize) -> (r: Vec<String>)
    requires
        lo <= hi <= v@.len(),
    ensures
        in_order(texts(r@)),
        texts(r@).to_multiset() == texts(v@).subrange(lo as int, hi as int).to_multiset(),
    decreases hi - lo,
{
    let ghost s = texts(v@);
    if hi - lo < 2 {
        let mut r: Vec<String> = Vec::new();
        if lo < hi {
            r.push(v[lo].clone());
        }
        assert(texts(r@) =~= s.subrange(lo as int, hi as int));
        return r;
    }
    let mid: usize = lo + (hi - lo) / 2;
    let a = sort_range(v, lo, mid);
    let b = sort_range(v, mid, hi);
    proof {
        let p = s.subrange(lo as int, mid as int);
        let q = s.subrange(mid as int, hi as int);
        assert(s.subrange(lo as int, hi as int) =~= p + q);
        vstd::seq_lib::lemma_multiset_commutative(p, q);
    }
    merge(&a, &b)
}

pub fn sort(v: Vec<String>) -> (r: Vec<String>)
    ensures
        texts(r@) == ordered(texts(v@)),
{
    let r = sort_range(&v, 0, v.len());
    proof {
        assert(texts(v@).subrange(0, v@.len() as int) =~= texts(v@));
        lemma_ordered_unique(texts(v@), texts(r@));
    }
    r
}

/// The list without repetitions of the entry just before.
pub open spec fn unrepeated(s: Seq<Seq<char>>) -> Seq<Seq<char>>
    decreases s.len(),
{
    if s.len() == 0 {
        s
    } else {
        let p = unrepeated(s.drop_last());
        if p.len() > 0 && p.last() == s.last() {
            p
        } else {
            p.push(s.last())
        }
    }
}

/// In a list in dictionary order, dropping repetitions leaves each entry once,
/// and in order.
pub proof fn each_name_once(s: Seq<Seq<char>>)
    requires
        in_order(s),
    ensures
        unrepeated(s).no_duplicates(),
        forall|x: Seq<char>| #[trigger] unrepeated(s).contains(x) <==> s.contains(x),
{
    lemma_unrepeated(s);
    let u = unrepeated(s);
    assert forall|i: int, j: int| 0 <= i < u.len() && 0 <= j < u.len() && i != j implies u[i]
        != u[j] by {
        one_precedes_the_other(u[i], u[j]);
        if i < j {
            assert(precedes(u[i], u[j]));
        } else {
            assert(precedes(u[j], u[i]));
        }
    }
}

proof fn lemma_unrepeated(s: Seq<Seq<char>>)
    requires
        in_order(s),
    ensures
        s.len() > 0 ==> unrepeated(s).len() > 0 && unrepeated(s).last() == s.last(),
        forall|i: int, j: int|
            0 <= i < j < unrepeated(s).len() ==> precedes(
                #[trigger] unrepeated(s)[i],
                #[trigger] unrepeated(s)[j],
            ),
        forall|x: Seq<char>| #[trigger] unrepeated(s).contains(x) <==> s.contains(x),
    decreases s.len(),
{
    let r = |a: Seq<char>, b: Seq<char>| up_to(a, b);
    if s.len() > 0 {
        let f = s.drop_last();
        assert(vstd::relations::sorted_by(f, r)) by {
            assert forall|i: int, j: int| 0 <= i < j < f.len() implies #[trigger] r(f[i], f[j]) by {
                assert(r(s[i], s[j]));
            }
        }
        lemma_unrepeated(f);
        let p = unrepeated(f);
        let u = unrepeated(s);
        assert forall|x: Seq<char>| #[trigger] u.contains(x) <==> s.contains(x) by {
            if s.contains(x) {
                let k = s.index_of(x);
                if k < f.len() {
                    assert(f[k] == x);
                    assert(p.contains(x));
                    let m = p.index_of(x);
                    assert(u[m] == x);
                } else {
                    assert(u[u.len() - 1] == x);
                }
            }
            if u.contains(x) {
                let k = u.index_of(x);
                if k < p.len() {
                    assert(p[k] == x);
                    assert(p.contains(x));
                    assert(f.contains(x));
                    let m = f.index_of(x);
                    assert(s[m] == x);
                } else {
                    assert(s[s.len() - 1] == x);
                }
            }
        }
        assert forall|i: int, j: int| 0 <= i < j < u.len() implies precedes(
            #[trigger] u[i],
            #[trigger] u[j],
        ) by {
            assert(u[i] == p[i]);
            if j < p.len() {
                assert(u[j] == p[j]);
            } else {
                assert(u[j] == s.last());
                assert(p.last() == f.last());
                assert(r(s[s.len() - 2], s[s.len() - 1]));
                one_precedes_the_other(p.last(), s.last());
                if i < p.len() - 1 {
                    assert(precedes(p[i], p[p.len() - 1]));
                    one_precedes_the_other(p[i], p.last());
                    lemma_up_to_transitive(p[i], p.last(), s.last());
                    one_precedes_the_other(p[i], s.last());
                }
            }
        }
    }
}

pub fn dedup(v: Vec<String>) -> (r: Vec<String>)
    ensures
        texts(r@) == unrepeated(texts(v@)),
{
    let mut r: Vec<String> = Vec::new();
    let mut i: usize = 0;
    assert(texts(v@).take(0) =~= Seq::<Seq<char>>::empty());
    assert(texts(r@) =~= Seq::<Seq<char>>::empty());
    while i < v.len()
        invariant
            i <= v@.len(),
            texts(r@) == unrepeated(texts(v@).take(i as int)),
        decreases v@.len() - i,
    {
        let ghost t = texts(v@).take(i + 1);
        assert(t.drop_last() =~= texts(v@).take(i as int));
        assert(t.last() == v@[i as int]@);
        if r.len() > 0 && same_str(r[r.len() - 1].as_str(), v[i].as_str()) {
            assert(texts(r@).last() == r@.last()@);
        } else {
            let ghost p = texts(r@);
            proof {
                if r@.len() > 0 {
                    assert(texts(r@).last() == r@.last()@);
                }
            }
            r.push(v[i].clone());
            assert(texts(r@) =~= p.push(t.last()));
        }
        i = i + 1;
    }
    assert(texts(v@).take(i as int) =~= texts(v@));
    r
}

pub fn index_of(v: &Vec<String>, s: &str) -> (r: Option<usize>)
    ensures
        match r {
            Some(i) => i < v@.len() && v@[i as int]@ == s@ && forall|j: int|
                0 <= j < i ==> v@[j]@ != s@,
            None => !texts(v@).contains(s@),
        },
{
    let c = chars_of(s);
    let mut i: usize = 0;
    while i < v.len()
        invariant
            i <= v@.len(),
            c@ == s@,
            forall|j: int| 0 <= j < i ==> v@[j]@ != s@,
        decreases v@.len() - i,
    {
        if equals(c.as_slice(), v[i].as_str()) {
            return Some(i);
        }
        i = i + 1;
    }
    assert forall|j: int| 0 <= j < texts(v@).len() implies texts(v@)[j] != s@ by {
        assert(v@[j]@ != s@);
    }
    None
}

pub fn contains_text(v: &Vec<String>, s: &str) -> (r: bool)
    ensures
        r == texts(v@).contains(s@),
{
    match index_of(v, s) {
        Some(i) => {
            assert(texts(v@)[i as int] == s@);
            true
        },
        None => false,
    }
}

// --------------------------------------------------------------- numbers ---

pub open spec fn digit_char(d: int) -> char {
    if d < 10 {
        (('0' as u32 + d) as u32) as char
    } else {
        (('a' as u32 + (d - 10)) as u32) as char
    }
}

/// `n` written to the base 10 or 16, without leading zeros.
pub open spec fn digits(n: nat, base: nat) -> Seq<char>
    decreases n,
{
    if base == 16 {
        if n < 16 {
            seq![digit_char(n as int)]
        } else {
            digits(n / 16, base).push(digit_char((n % 16) as int))
        }
    } else if n < 10 {
        seq![digit_char(n as int)]
    } else {
        digits(n / 10, base).push(digit_char((n % 10) as int))
    }
}

pub open spec fn decimal(n: nat) -> Seq<char> {
    digits(n, 10)
}

/// `s` with zeros put in front until it has `width` characters.
pub open spec fn zero_padded(s: Seq<char>, width: nat) -> Seq<char> {
    if s.len() < width {
        Seq::new((width - s.len()) as nat, |i: int| '0') + s
    } else {
        s
    }
}

fn digit(d: u64) -> (r: char)
    requires
        d < 16,
    ensures
        r == digit_char(d as int),
{
    if d < 10 {
        let n: u8 = 48 + d as u8;
        n as char
    } else {
        let n: u8 = 87 + d as u8;
        n as char
    }
}

fn write_digits(n: u64, base: u64) -> (r: Vec<char>)
    requires
        base == 10 || base == 16,
    ensures
        r@ == digits(n as nat, base as nat),
    decreases n,
{
    if n < base {
        let mut r: Vec<char> = Vec::new();
        r.push(digit(n));
        assert(r@ =~= digits(n as nat, base as nat));
        r
    } else {
        let (q, d): (u64, u64) = if base == 16 {
            (n / 16, n % 16)
        } else {
            (n / 10, n % 10)
        };
        let mut r = write_digits(q, base);
        r.push(digit(d));
        r
    }
}

pub fn write_decimal(n: u64) -> (r: String)
    ensures
        r@ == decimal(n as nat),
{
    let d = write_digits(n, 10);
    string_of(d.as_slice())
}

pub fn write_usize(n: usize) -> (r: String)
    ensures
        r@ == decimal(n as nat),
{
    write_decimal(n as u64)
}

fn pad(s: Vec<char>, width: usize) -> (r: String)
    ensures
        r@ == zero_padded(s@, width as nat),
{
    let mut t: Vec<char> = Vec::new();
    let mut k: usize = s.len();
    while k < width
        invariant
            s@.len() <= k,
            k <= width || k == s@.len(),
            t@ =~= Seq::new((k - s@.len()) as nat, |i: int| '0'),
        decreases width - k,
    {
        t.push('0');
        k = k + 1;
    }
    let mut i: usize = 0;
    let ghost zeros = t@;
    while i < s.len()
        invariant
            i <= s@.len(),
            t@ =~= zeros + s@.take(i as int),
        decreases s@.len() - i,
    {
        t.push(s[i]);
        i = i + 1;
    }
    assert(t@ =~= zero_padded(s@, width as nat));
    string_of(t.as_slice())
}

pub fn write_hex(n: u64, width: usize) -> (r: String)
    ensures
        r@ == zero_padded(digits(n as nat, 16), width as nat),
{
    pad(write_digits(n, 16), width)
}

pub fn write_padded(n: u64, width: usize) -> (r: String)
    ensures
        r@ == zero_padded(decimal(n as nat), width as nat),
{
    pad(write_digits(n, 10), width)
}

/// The value of a digit to the base 10 or 16.
pub open spec fn digit_value(c: char, base: nat) -> Option<nat> {
    if '0' <= c && c <= '9' {
        Some((c as u32 - '0' as u32) as nat)
    } else if base == 16 && 'a' <= c && c <= 'f' {
        Some((c as u32 - 'a' as u32 + 10) as nat)
    } else if base == 16 && 'A' <= c && c <= 'F' {
        Some((c as u32 - 'A' as u32 + 10) as nat)
    } else {
        None
    }
}

/// The number that a run of digits stands for.
pub open spec fn digits_value(s: Seq<char>, base: nat) -> Option<nat>
    decreases s.len(),
{
    if s.len() == 0 {
        Some(0)
    } else {
        match (digits_value(s.drop_last(), base), digit_value(s.last(), base)) {
            (Some(v), Some(d)) => Some(v * base + d),
            _ => None,
        }
    }
}

/// `s` read as an unsigned number no larger than `max`: at least one digit,
/// with an optional plus sign in front.
pub open spec fn number(s: Seq<char>, base: nat, max: nat) -> Option<nat> {
    let d = if s.len() > 1 && s[0] == '+' {
        s.skip(1)
    } else {
        s
    };
    if d.len() == 0 {
        None
    } else {
        match digits_value(d, base) {
            Some(v) => if v <= max {
                Some(v)
            } else {
                None
            },
            None => None,
        }
    }
}

fn value_of(c: char, base: u64) -> (r: Option<u64>)
    requires
        base == 10 || base == 16,
    ensures
        match r {
            Some(v) => v < base && digit_value(c, base as nat) == Some(v as nat),
            None => digit_value(c, base as nat) is None,
        },
{
    let n: u32 = c as u32;
    if '0' <= c && c <= '9' {
        Some((n - 48) as u64)
    } else if base == 16 && 'a' <= c && c <= 'f' {
        Some((n - 87) as u64)
    } else if base == 16 && 'A' <= c && c <= 'F' {
        Some((n - 55) as u64)
    } else {
        None
    }
}

proof fn lemma_digits_value_grows(s: Seq<char>, n: int, base: nat)
    requires
        0 <= n <= s.len(),
        base >= 1,
    ensures
        digits_value(s, base) matches Some(v) ==> (digits_value(s.take(n), base) matches Some(w)
            && w <= v),
    decreases s.len() - n,
{
    if n == s.len() {
        assert(s.take(n) =~= s);
    } else {
        lemma_digits_value_grows(s, n + 1, base);
        assert(s.take(n + 1).drop_last() =~= s.take(n));
        if digits_value(s, base) is Some {
            let w = digits_value(s.take(n), base)->0;
            assert(w <= w * base) by (nonlinear_arith)
                requires
                    base >= 1,
            ;
        }
    }
}

pub fn read_number(s: &[char], base: u64, max: u64) -> (r: Option<u64>)
    requires
        base == 10 || base == 16,
    ensures
        match r {
            Some(v) => number(s@, base as nat, max as nat) == Some(v as nat),
            None => number(s@, base as nat, max as nat) is None,
        },
{
    let mut i: usize = if s.len() > 1 && s[0] == '+' {
        1
    } else {
        0
    };
    let ghost d = if s@.len() > 1 && s@[0] == '+' {
        s@.skip(1)
    } else {
        s@
    };
    let ghost from = i as int;
    if s.len() == 0 {
        return None;
    }
    let mut v: u128 = 0;
    assert(d.take(0) =~= Seq::<char>::empty());
    while i < s.len()
        invariant
            base == 10 || base == 16,
            0 <= from <= i <= s@.len(),
            s@.len() > 0,
            from == (if s@.len() > 1 && s@[0] == '+' {
                1int
            } else {
                0
            }),
            d =~= s@.skip(from),
            number(s@, base as nat, max as nat) == (match digits_value(d, base as nat) {
                Some(w) => if w <= max {
                    Some(w)
                } else {
                    None
                },
                None => None,
            }),
            v <= max,
            digits_value(d.take(i - from), base as nat) == Some(v as nat),
        decreases s@.len() - i,
    {
        let ghost t = d.take(i - from + 1);
        assert(t.len() == i - from + 1);
        assert(t.drop_last() =~= d.take(i - from));
        assert(t.last() == s@[i as int]);
        proof {
            lemma_digits_value_grows(d, i - from + 1, base as nat);
        }
        match value_of(s[i], base) {
            Some(x) => {
                let next: u128 = v * (base as u128) + (x as u128);
                if next > max as u128 {
                    return None;
                }
                v = next;
            },
            None => {
                return None;
            },
        }
        i = i + 1;
    }
    assert(d.take(i - from) =~= d);
    Some(v as u64)
}

// -------------------------------------------------------- reading back ---

/// Lines as one text, each with its line feed.
pub open spec fn as_text(ls: Seq<Seq<char>>) -> Seq<char>
    decreases ls.len(),
{
    if ls.len() == 0 {
        Seq::empty()
    } else {
        ls[0].push('\n') + as_text(ls.skip(1))
    }
}

/// Whether a text can be one line.
pub open spec fn one_line(s: Seq<char>) -> bool {
    !s.contains('\n') && (s.len() > 0 ==> s.last() != '\r')
}

/// Lines that were written as one text are read back.
pub proof fn lines_are_read_back(ls: Seq<Seq<char>>)
    requires
        forall|i: int| 0 <= i < ls.len() ==> one_line(#[trigger] ls[i]),
    ensures
        lines(as_text(ls)) == ls,
    decreases ls.len(),
{
    if ls.len() == 0 {
        assert(lines(as_text(ls)) =~= ls);
    } else {
        let rest = ls.skip(1);
        assert forall|i: int| 0 <= i < rest.len() implies one_line(#[trigger] rest[i]) by {
            assert(rest[i] == ls[i + 1]);
        }
        lines_are_read_back(rest);
        assert(one_line(ls[0]));
        lemma_first_line(ls[0], as_text(rest));
        assert(seq![ls[0]] + rest =~= ls);
    }
}

/// A text between two characters that are no blanks is trimmed already.
pub proof fn lemma_trimmed(s: Seq<char>)
    requires
        s.len() > 0,
        !space(s[0]),
        !space(s.last()),
    ensures
        trimmed(s) == s,
{
}

/// Words, each with a blank before it.
pub open spec fn spaced(ws: Seq<Seq<char>>) -> Seq<char>
    decreases ws.len(),
{
    if ws.len() == 0 {
        Seq::empty()
    } else {
        spaced(ws.drop_last()).push(' ') + ws.last()
    }
}

/// Whether a text can be one word.
pub open spec fn one_word(w: Seq<char>) -> bool {
    w.len() > 0 && forall|i: int| 0 <= i < w.len() ==> !space(#[trigger] w[i])
}

proof fn lemma_one_more_word(a: Seq<char>, w: Seq<char>)
    requires
        one_word(w),
    ensures
        words(a.push(' ') + w) == words(a).push(w),
    decreases w.len(),
{
    let s = a.push(' ') + w;
    let u = w.drop_last();
    assert(space(' '));
    assert(!space(w[w.len() - 1]));
    assert(s.last() == w.last());
    if w.len() == 1 {
        assert(s.drop_last() =~= a.push(' '));
        assert(a.push(' ').drop_last() =~= a);
        assert(words(a.push(' ')) == words(a));
        assert(s[s.len() - 2] == ' ');
        assert(w =~= seq![w.last()]);
    } else {
        assert forall|i: int| 0 <= i < u.len() implies !space(#[trigger] u[i]) by {
            assert(w[i] == u[i]);
        }
        lemma_one_more_word(a, u);
        assert(s.drop_last() =~= a.push(' ') + u);
        assert(s[s.len() - 2] == w[w.len() - 2]);
        let p = words(a.push(' ') + u);
        assert(p.last() == u);
        assert(u.push(w.last()) =~= w);
        assert(words(s) =~= words(a).push(w));
    }
}

/// A blank in front makes no word.
pub proof fn lemma_blank_in_front(s: Seq<char>)
    ensures
        words(seq![' '] + s) == words(s),
    decreases s.len(),
{
    let t = seq![' '] + s;
    assert(space(' '));
    if s.len() == 0 {
        assert(t.drop_last() =~= s);
        assert(t.last() == ' ');
    } else {
        lemma_blank_in_front(s.drop_last());
        assert(t.drop_last() =~= seq![' '] + s.drop_last());
        assert(t.last() == s.last());
        if s.len() > 1 {
            assert(t[t.len() - 2] == s[s.len() - 2]);
        } else {
            assert(t[t.len() - 2] == ' ');
        }
    }
}

/// Words that were written with blanks around them are read back.
pub proof fn words_are_read_back(ws: Seq<Seq<char>>)
    requires
        forall|i: int| 0 <= i < ws.len() ==> one_word(#[trigger] ws[i]),
    ensures
        words(spaced(ws)) == ws,
        words(spaced(ws).push(' ')) == ws,
    decreases ws.len(),
{
    assert(space(' '));
    if ws.len() > 0 {
        let front = ws.drop_last();
        assert forall|i: int| 0 <= i < front.len() implies one_word(#[trigger] front[i]) by {
            assert(ws[i] == front[i]);
        }
        words_are_read_back(front);
        assert(one_word(ws[ws.len() - 1]));
        lemma_one_more_word(spaced(front), ws.last());
        assert(front.push(ws.last()) =~= ws);
    } else {
        assert(words(spaced(ws)) =~= ws);
    }
    assert(spaced(ws).push(' ').drop_last() =~= spaced(ws));
}

proof fn lemma_digit(d: int, base: nat)
    requires
        0 <= d < base,
        base == 10 || base == 16,
    ensures
        digit_value(digit_char(d), base) == Some(d as nat),
        !space(digit_char(d)),
        digit_char(d) != '+',
{
}

proof fn lemma_digits(n: nat, base: nat)
    requires
        base == 10 || base == 16,
    ensures
        digits_value(digits(n, base), base) == Some(n),
        one_word(digits(n, base)),
        digits(n, base)[0] != '+',
        forall|i: int|
            0 <= i < digits(n, base).len() ==> digit_value(#[trigger] digits(n, base)[i], base) is Some,
    decreases n,
{
    if n < base {
        let s = seq![digit_char(n as int)];
        lemma_digit(n as int, base);
        assert(digits(n, base) == s);
        assert(s.drop_last() =~= Seq::<char>::empty());
        reveal_with_fuel(digits_value, 2);
        assert(0 * base + n == n);
    } else {
        let q = n / base;
        let r = n % base;
        assert(q < n && n == q * base + r && 0 <= r < base) by (nonlinear_arith)
            requires
                q == n / base,
                r == n % base,
                base == 10 || base == 16,
                n >= base,
        ;
        lemma_digits(q, base);
        lemma_digit(r as int, base);
        let s = digits(n, base);
        assert(s == digits(q, base).push(digit_char(r as int)));
        assert(s.drop_last() =~= digits(q, base));
    }
}

proof fn lemma_zeros_in_front(k: nat, s: Seq<char>, base: nat)
    requires
        base == 10 || base == 16,
    ensures
        digits_value(Seq::new(k, |i: int| '0') + s, base) == digits_value(s, base),
    decreases k + s.len(),
{
    let z = Seq::new(k, |i: int| '0');
    if s.len() > 0 {
        lemma_zeros_in_front(k, s.drop_last(), base);
        assert((z + s).drop_last() =~= z + s.drop_last());
    } else if k > 0 {
        lemma_zeros_in_front((k - 1) as nat, s, base);
        assert((z + s).drop_last() =~= Seq::new((k - 1) as nat, |i: int| '0') + s);
        assert((z + s).last() == '0');
        assert(0 * base == 0);
    } else {
        assert(z + s =~= s);
    }
}

pub open spec fn all_digits(s: Seq<char>, base: nat) -> bool {
    forall|i: int| 0 <= i < s.len() ==> digit_value(#[trigger] s[i], base) is Some
}

/// A number that was written to the base 10 or 16, with zeros in front or without,
/// is one word and is read back.
pub proof fn numbers_are_read_back(n: nat, base: nat, width: nat, max: nat)
    requires
        base == 10 || base == 16,
        n <= max,
    ensures
        number(zero_padded(digits(n, base), width), base, max) == Some(n),
        one_word(zero_padded(digits(n, base), width)),
        zero_padded(digits(n, base), width).len() >= width,
        number(digits(n, base), base, max) == Some(n),
        one_word(digits(n, base)),
        all_digits(zero_padded(digits(n, base), width), base),
        all_digits(digits(n, base), base),
{
    let s = digits(n, base);
    lemma_digits(n, base);
    if s.len() < width {
        let k = (width - s.len()) as nat;
        lemma_zeros_in_front(k, s, base);
        let p = zero_padded(s, width);
        assert forall|i: int| 0 <= i < p.len() implies !space(#[trigger] p[i]) && digit_value(
            p[i],
            base,
        ) is Some by {
            if i >= k {
                assert(p[i] == s[i - k]);
            }
        }
    }
}

} // verus!
