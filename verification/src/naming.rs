//! Names for what is written, taken from the names that mods come under.

use crate::text::{
    back_trimmed, chars_of, join, joined, split_words, string_of, strings_of, trim, trim_back,
    trimmed, words, Class,
};
use vstd::prelude::*;

verus! {

/// Whether Unicode counts a character as a letter or a number.
pub uninterp spec fn alphanumeric(c: char) -> bool;

/// Letters and digits of ASCII.
pub open spec fn plain_alphanumeric(c: char) -> bool {
    ('0' <= c <= '9') || ('A' <= c <= 'Z') || ('a' <= c <= 'z')
}

/// `char::is_alphanumeric`: whether a character is alphabetic or numeric, which
/// it tells from the character alone. Of ASCII these are the letters and digits.
#[verifier::external_body]
pub(crate) fn is_alphanumeric(c: char) -> (r: bool)
    ensures
        r == alphanumeric(c),
        (c as u32) < 128 ==> r == plain_alphanumeric(c),
{
    c.is_alphanumeric()
}

/// How many brackets are open at the end of `s`. One that closes nothing does
/// not count.
pub open spec fn open_brackets(s: Seq<char>) -> nat
    decreases s.len(),
{
    if s.len() == 0 {
        0
    } else {
        let d = open_brackets(s.drop_last());
        if s.last() == '[' || s.last() == '(' {
            d + 1
        } else if (s.last() == ']' || s.last() == ')') && d > 0 {
            (d - 1) as nat
        } else {
            d
        }
    }
}

pub open spec fn bracket(c: char) -> bool {
    c == '[' || c == '(' || c == ']' || c == ')'
}

/// What of `s` stands outside brackets.
pub open spec fn unbracketed(s: Seq<char>) -> Seq<char>
    decreases s.len(),
{
    if s.len() == 0 {
        Seq::empty()
    } else {
        let r = unbracketed(s.drop_last());
        if !bracket(s.last()) && open_brackets(s.drop_last()) == 0 {
            r.push(s.last())
        } else {
            r
        }
    }
}

fn without_brackets(s: &[char]) -> (r: Vec<char>)
    ensures
        r@ == unbracketed(s@),
{
    let mut r: Vec<char> = Vec::new();
    let mut depth: usize = 0;
    let mut i: usize = 0;
    assert(s@.take(0) =~= Seq::<char>::empty());
    while i < s.len()
        invariant
            i <= s@.len(),
            depth == open_brackets(s@.take(i as int)),
            depth <= i,
            r@ == unbracketed(s@.take(i as int)),
        decreases s@.len() - i,
    {
        assert(s@.take(i + 1).drop_last() =~= s@.take(i as int));
        let c = s[i];
        if c == '[' || c == '(' {
            depth = depth + 1;
        } else if c == ']' || c == ')' {
            if depth > 0 {
                depth = depth - 1;
            }
        } else if depth == 0 {
            r.push(c);
        }
        i = i + 1;
    }
    assert(s@.take(i as int) =~= s@);
    r
}

/// A character that may stand in the name of an output.
pub open spec fn tidy(c: char) -> char {
    if alphanumeric(c) || c == '_' || c == '-' || c == ' ' {
        c
    } else {
        ' '
    }
}

pub open spec fn tidied(s: Seq<char>) -> Seq<char> {
    Seq::new(s.len(), |i: int| tidy(s[i]))
}

/// The name for the outputs of an archive, from its file's name without the
/// extension: brackets and what they hold are dropped, odd characters become
/// spaces, and runs of spaces one.
pub open spec fn stem_named(raw: Option<Seq<char>>) -> Seq<char> {
    let s = match raw {
        Some(s) => s,
        None => "vehicle"@,
    };
    let spaced = joined(words(tidied(unbracketed(s))), " "@);
    let cleaned = trimmed(back_trimmed(trimmed(spaced), Class::Any('-', '_', '_')));
    if cleaned.len() == 0 {
        "vehicle"@
    } else if cleaned.len() > 60 {
        cleaned.take(60)
    } else {
        cleaned
    }
}

fn tidy_all(s: &[char]) -> (r: Vec<char>)
    ensures
        r@ == tidied(s@),
{
    let mut r: Vec<char> = Vec::new();
    let mut i: usize = 0;
    while i < s.len()
        invariant
            i <= s@.len(),
            r@ =~= tidied(s@).take(i as int),
        decreases s@.len() - i,
    {
        let c = s[i];
        let t = if c == '_' || c == '-' || c == ' ' || is_alphanumeric(c) {
            c
        } else {
            ' '
        };
        r.push(t);
        i = i + 1;
    }
    assert(tidied(s@).take(i as int) =~= tidied(s@));
    r
}

/// A filesystem- and human-friendly name for the outputs, taken from the archive.
/// Mod filenames carry version brackets that make for miserable file names.
pub fn output_stem(raw: Option<&str>) -> (r: String)
    ensures
        r@ == stem_named(
            match raw {
                Some(s) => Some(s@),
                None => None,
            },
        ),
{
    let s = chars_of(
        match raw {
            Some(s) => s,
            None => "vehicle",
        },
    );
    let t = tidy_all(without_brackets(s.as_slice()).as_slice());
    let w = split_words(t.as_slice());
    let spaced = join(&strings_of(&w), " ");
    let c = chars_of(spaced.as_str());
    let cleaned = trim(trim_back(trim(c.as_slice()), Class::Any('-', '_', '_')));
    if cleaned.len() == 0 {
        "vehicle".to_owned()
    } else if cleaned.len() > 60 {
        let r = vstd::slice::slice_subrange(cleaned, 0, 60);
        assert(r@ =~= cleaned@.take(60));
        string_of(r)
    } else {
        string_of(cleaned)
    }
}

/// An output always has a name, and never one of more than sixty characters.
pub proof fn outputs_have_names(raw: Option<Seq<char>>)
    ensures
        0 < stem_named(raw).len() <= 60,
{
    reveal_strlit("vehicle");
}

/// The folder of a mod in a sound library: its name without version brackets.
pub open spec fn folder_named(stem: Seq<char>) -> Seq<char> {
    let s = trimmed(back_trimmed(trimmed(unbracketed(stem)), Class::Any('-', '_', '.')));
    if s.len() == 0 {
        stem
    } else {
        s
    }
}

pub fn folder_name(stem: &str) -> (r: String)
    ensures
        r@ == folder_named(stem@),
{
    let c = chars_of(stem);
    let u = without_brackets(c.as_slice());
    let s = trim(trim_back(trim(u.as_slice()), Class::Any('-', '_', '.')));
    if s.len() == 0 {
        stem.to_owned()
    } else {
        string_of(s)
    }
}

/// A character of a name that is made of letters, digits and `.`, `-`, `_`.
pub open spec fn safe_char(c: char) -> char {
    if alphanumeric(c) || c == '.' || c == '-' || c == '_' {
        c
    } else {
        '_'
    }
}

/// A name with everything but letters, digits and `.`, `-`, `_` replaced.
pub open spec fn safe(s: Seq<char>) -> Seq<char> {
    Seq::new(s.len(), |i: int| safe_char(s[i]))
}

pub fn safe_name(s: &str) -> (r: String)
    ensures
        r@ == safe(s@),
{
    let c = chars_of(s);
    let mut r: Vec<char> = Vec::new();
    let mut i: usize = 0;
    while i < c.len()
        invariant
            i <= c@.len(),
            r@ =~= safe(c@).take(i as int),
        decreases c@.len() - i,
    {
        let x = c[i];
        let t = if x == '.' || x == '-' || x == '_' || is_alphanumeric(x) {
            x
        } else {
            '_'
        };
        r.push(t);
        i = i + 1;
    }
    assert(safe(c@).take(i as int) =~= safe(c@));
    string_of(r.as_slice())
}

} // verus!
