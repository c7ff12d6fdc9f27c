//! From a package identifier to the identity of a dependency.
//!
//! A package identifier reads `name version (location)`; the identity keeps
//! `name version`, with underscores of the name turned into hyphens and a
//! leading `v` of the version dropped.
use vstd::prelude::*;
use vstd::pervasive::unreached;
use crate::text::to_chars;

verus! {

/// Whether `c` is white space: a code point with the Unicode property
/// White_Space.
pub open spec fn is_whitespace(c: char) -> bool {
    ||| c == ' '
    ||| ('\u{9}' <= c && c <= '\u{d}')
    ||| c == '\u{85}'
    ||| c == '\u{a0}'
    ||| c == '\u{1680}'
    ||| ('\u{2000}' <= c && c <= '\u{200a}')
    ||| c == '\u{2028}'
    ||| c == '\u{2029}'
    ||| c == '\u{202f}'
    ||| c == '\u{205f}'
    ||| c == '\u{3000}'
}

/// `s` without the white space at its two ends.
pub open spec fn trim(s: Seq<char>) -> Seq<char>
    decreases s.len(),
{
    if s.len() > 0 && is_whitespace(s.first()) {
        trim(s.drop_first())
    } else if s.len() > 0 && is_whitespace(s.last()) {
        trim(s.drop_last())
    } else {
        s
    }
}

/// First position at or after `from` where a space is followed by an
/// opening parenthesis; the length of `s` if there is none.
pub open spec fn location_start(s: Seq<char>, from: int) -> int
    decreases s.len() - from,
{
    if from < 0 || from + 1 >= s.len() {
        s.len() as int
    } else if s[from] == ' ' && s[from + 1] == '(' {
        from
    } else {
        location_start(s, from + 1)
    }
}

/// Position of the last space of `s`; `-1` if it has none.
pub open spec fn last_space(s: Seq<char>) -> int
    decreases s.len(),
{
    if s.len() == 0 {
        -1
    } else if s.last() == ' ' {
        s.len() - 1
    } else {
        last_space(s.drop_last())
    }
}

/// `s` with a hyphen in place of each underscore.
pub open spec fn hyphenated(s: Seq<char>) -> Seq<char> {
    Seq::new(
        s.len(),
        |i: int|
            if s[i] == '_' {
                '-'
            } else {
                s[i]
            },
    )
}

/// A version without the letter `v` that may lead it.
pub open spec fn bare_version(v: Seq<char>) -> Seq<char> {
    if v.len() > 0 && v[0] == 'v' {
        v.skip(1)
    } else {
        v
    }
}

/// The identity that a package identifier stands for, if it has the form
/// `name version`: what precedes the first `" ("` is trimmed and split at
/// its last space into name and version.
pub open spec fn identity(pkg: Seq<char>) -> Option<Seq<char>> {
    let id = trim(pkg.take(location_start(pkg, 0)));
    let at = last_space(id);
    if at < 0 {
        None
    } else {
        Some(hyphenated(id.take(at)) + seq![' '] + bare_version(id.skip(at + 1)))
    }
}

proof fn lemma_last_space_bounds(s: Seq<char>)
    ensures
        -1 <= last_space(s) < s.len(),
        last_space(s) >= 0 ==> s[last_space(s)] == ' ',
    decreases s.len(),
{
    if s.len() > 0 && s.last() != ' ' {
        lemma_last_space_bounds(s.drop_last());
    }
}

/// An identity holds a space.
pub proof fn lemma_identity_has_space(pkg: Seq<char>)
    requires
        identity(pkg) is Some,
    ensures
        identity(pkg)->0.contains(' '),
{
    let id = trim(pkg.take(location_start(pkg, 0)));
    let at = last_space(id);
    lemma_last_space_bounds(id);
    let out = identity(pkg)->0;
    assert(out[at] == ' ');
}

fn is_space(c: char) -> (b: bool)
    ensures
        b == is_whitespace(c),
{
    c == ' ' || (c >= '\u{9}' && c <= '\u{d}') || c == '\u{85}' || c == '\u{a0}' || c
        == '\u{1680}' || (c >= '\u{2000}' && c <= '\u{200a}') || c == '\u{2028}' || c
        == '\u{2029}' || c == '\u{202f}' || c == '\u{205f}' || c == '\u{3000}'
}

fn find_location(pkg: &Vec<char>) -> (at: usize)
    ensures
        at == location_start(pkg@, 0),
        at <= pkg.len(),
{
    let mut i: usize = 0;
    while pkg.len() - i > 1 && !(pkg[i] == ' ' && pkg[i + 1] == '(')
        invariant
            i <= pkg.len(),
            location_start(pkg@, 0) == location_start(pkg@, i as int),
        decreases pkg.len() - i,
    {
        i += 1;
    }
    if pkg.len() - i > 1 {
        i
    } else {
        pkg.len()
    }
}

fn trim_bounds(pkg: &Vec<char>, stop: usize) -> (r: (usize, usize))
    requires
        stop <= pkg.len(),
    ensures
        r.0 <= r.1 <= stop,
        trim(pkg@.take(stop as int)) == pkg@.subrange(r.0 as int, r.1 as int),
{
    let mut a: usize = 0;
    while a < stop && is_space(pkg[a])
        invariant
            a <= stop <= pkg.len(),
            trim(pkg@.take(stop as int)) == trim(pkg@.subrange(a as int, stop as int)),
        decreases stop - a,
    {
        assert(pkg@.subrange(a as int, stop as int).drop_first() == pkg@.subrange(
            a + 1,
            stop as int,
        ));
        a += 1;
    }
    let mut b: usize = stop;
    while b > a && is_space(pkg[b - 1])
        invariant
            a <= b <= stop <= pkg.len(),
            a == stop || !is_whitespace(pkg@[a as int]),
            trim(pkg@.take(stop as int)) == trim(pkg@.subrange(a as int, b as int)),
        decreases b - a,
    {
        assert(pkg@.subrange(a as int, b as int).drop_last() == pkg@.subrange(
            a as int,
            b - 1,
        ));
        b -= 1;
    }
    (a, b)
}

/// The identity that a package identifier stands for, if it has one.
pub fn identity_of(pkg: &Vec<char>) -> (r: Option<String>)
    ensures
        match r {
            Some(id) => identity(pkg@) == Some(id@),
            None => identity(pkg@) is None,
        },
{
    let stop = find_location(pkg);
    let (a, b) = trim_bounds(pkg, stop);
    let ghost id = pkg@.subrange(a as int, b as int);
    let mut j: usize = b;
    assert(id.take(b - a) == id);
    while j > a && pkg[j - 1] != ' '
        invariant
            a <= j <= b <= pkg.len(),
            id == pkg@.subrange(a as int, b as int),
            last_space(id) == last_space(id.take(j - a)),
        decreases j - a,
    {
        assert(id.take(j - a).drop_last() == id.take(j - a - 1));
        j -= 1;
    }
    if j == a {
        return None;
    }
    let at: usize = j - 1;
    assert(last_space(id) == at - a);
    let mut out = String::new();
    let mut i: usize = a;
    while i < at
        invariant
            a <= i <= at < b <= pkg.len(),
            id == pkg@.subrange(a as int, b as int),
            out@ == hyphenated(id.take(i - a)),
        decreases at - i,
    {
        let c = pkg[i];
        out.push(if c == '_' { '-' } else { c });
        i += 1;
    }
    out.push(' ');
    let mut k: usize = at + 1;
    if k < b && pkg[k] == 'v' {
        k += 1;
    }
    let ghost name = hyphenated(id.take(at - a));
    let ghost first = k;
    assert(bare_version(id.skip(at - a + 1)) == pkg@.subrange(first as int, b as int));
    while k < b
        invariant
            first <= k <= b <= pkg.len(),
            out@ == name + seq![' '] + pkg@.subrange(first as int, k as int),
        decreases b - k,
    {
        out.push(pkg[k]);
        k += 1;
    }
    Some(out)
}

/// The identity that a package identifier stands for.
pub fn crate_name_from_package_id(pkg_id: &str) -> (id: String)
    requires
        identity(pkg_id@) is Some,
    ensures
        Some(id@) == identity(pkg_id@),
{
    let chars = to_chars(pkg_id);
    match identity_of(&chars) {
        Some(id) => id,
        None => unreached(),
    }
}

} // verus!
