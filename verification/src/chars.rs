//! Strings as sequences of characters: conversion, trimming and search.

use vstd::prelude::*;

verus! {

/// Appends one character to a string (`String::push`).
/// Trusted: the result's characters are the old ones followed by `c`, as
/// the standard library documents.
#[verifier::external_body]
pub(crate) fn string_push(s: &mut String, c: char)
    ensures
        final(s)@ == old(s)@.push(c),
{
    s.push(c);
}

/// The characters of `s`, in order.
pub fn str_to_chars(s: &str) -> (v: Vec<char>)
    ensures
        v@ == s@,
{
    let mut v: Vec<char> = Vec::new();
    for c in it: s.chars()
        invariant
            v@ == it.seq().take(it.index() as int),
    {
        v.push(c);
    }
    v
}

/// The string made of the characters `cs[from..to]`.
pub fn chars_to_string(cs: &[char], from: usize, to: usize) -> (s: String)
    requires
        from <= to <= cs@.len(),
    ensures
        s@ == cs@.subrange(from as int, to as int),
{
    let mut s = String::new();
    let mut i: usize = from;
    while i < to
        invariant
            from <= i <= to <= cs@.len(),
            s@ == cs@.subrange(from as int, i as int),
        decreases to - i,
    {
        string_push(&mut s, cs[i]);
        assert(cs@.subrange(from as int, i as int + 1) == cs@.subrange(from as int, i as int).push(
            cs@[i as int],
        ));
        i += 1;
    }
    s
}

/// Whether `c` has the Unicode White_Space property: the ASCII controls
/// U+0009 to U+000D, the space, NEL, no-break space, Ogham space mark, the
/// spaces U+2000 to U+200A, the line and paragraph separators, the narrow
/// no-break space, the medium mathematical space and the ideographic space.
pub open spec fn is_white_space(c: char) -> bool {
    let u = c as u32;
    ||| 0x09 <= u <= 0x0D
    ||| u == 0x20
    ||| u == 0x85
    ||| u == 0xA0
    ||| u == 0x1680
    ||| 0x2000 <= u <= 0x200A
    ||| u == 0x2028
    ||| u == 0x2029
    ||| u == 0x202F
    ||| u == 0x205F
    ||| u == 0x3000
}

/// `char::is_whitespace`.
/// Trusted: the result is whether `c` is one of the White_Space characters
/// listed in `is_white_space`, the set that the standard library documents
/// for this method.
#[verifier::external_body]
pub(crate) fn char_is_whitespace(c: char) -> (r: bool)
    ensures
        r == is_white_space(c),
{
    c.is_whitespace()
}

/// Whether `c` is alphabetic or numeric in Unicode, as
/// `char::is_alphanumeric` decides it.
pub uninterp spec fn is_alphanumeric(c: char) -> bool;

/// `char::is_alphanumeric`.
/// Trusted: the result is the property named `is_alphanumeric`, a function
/// of `c` alone; the Unicode tables behind it are not restated.
#[verifier::external_body]
pub(crate) fn char_is_alphanumeric(c: char) -> (r: bool)
    ensures
        r == is_alphanumeric(c),
{
    c.is_alphanumeric()
}

/// `s` without its trailing white space.
pub open spec fn trim_end(s: Seq<char>) -> Seq<char>
    decreases s.len(),
{
    if s.len() > 0 && is_white_space(s.last()) {
        trim_end(s.drop_last())
    } else {
        s
    }
}

/// `s` without its leading white space.
pub open spec fn trim_start(s: Seq<char>) -> Seq<char>
    decreases s.len(),
{
    if s.len() > 0 && is_white_space(s[0]) {
        trim_start(s.drop_first())
    } else {
        s
    }
}

/// `s` without leading and trailing white space.
pub open spec fn trim(s: Seq<char>) -> Seq<char> {
    trim_start(trim_end(s))
}

/// `s` ends with `p`.
pub open spec fn ends_with(s: Seq<char>, p: Seq<char>) -> bool {
    s.len() >= p.len() && s.skip(s.len() - p.len()) == p
}

/// `p` occurs in `s` as a run of consecutive characters.
pub open spec fn contains_seq(s: Seq<char>, p: Seq<char>) -> bool {
    exists|i: int| 0 <= i && i + p.len() <= s.len() && #[trigger] s.subrange(i, i + p.len()) == p
}

/// Trimming the end keeps a prefix.
pub proof fn lemma_trim_end_prefix(s: Seq<char>)
    ensures
        trim_end(s).len() <= s.len(),
        trim_end(s) == s.take(trim_end(s).len() as int),
        trim_end(s).len() > 0 ==> !is_white_space(trim_end(s).last()),
    decreases s.len(),
{
    if s.len() > 0 && is_white_space(s.last()) {
        lemma_trim_end_prefix(s.drop_last());
        assert(s.drop_last().take(trim_end(s).len() as int) == s.take(trim_end(s).len() as int));
    } else {
        assert(s.take(s.len() as int) == s);
    }
}

/// Trimming the start keeps a suffix.
pub proof fn lemma_trim_start_suffix(s: Seq<char>)
    ensures
        trim_start(s).len() <= s.len(),
        trim_start(s) == s.skip(s.len() - trim_start(s).len()),
    decreases s.len(),
{
    if s.len() > 0 && is_white_space(s[0]) {
        lemma_trim_start_suffix(s.drop_first());
        assert(s.drop_first().skip(s.drop_first().len() - trim_start(s).len()) == s.skip(
            s.len() - trim_start(s).len(),
        ));
    } else {
        assert(s.skip(0) == s);
    }
}

/// The length of `cs` once its trailing white space is dropped.
pub fn trim_end_len(cs: &[char]) -> (n: usize)
    ensures
        n <= cs@.len(),
        cs@.take(n as int) == trim_end(cs@),
{
    let mut n = cs.len();
    proof {
        assert(cs@.take(n as int) == cs@);
    }
    while n > 0 && char_is_whitespace(cs[n - 1])
        invariant
            n <= cs@.len(),
            trim_end(cs@.take(n as int)) == trim_end(cs@),
        decreases n,
    {
        assert(cs@.take(n as int).drop_last() == cs@.take(n as int - 1));
        n -= 1;
    }
    proof {
        lemma_trim_end_prefix(cs@.take(n as int));
    }
    n
}

/// The bounds `(a, b)` of `trim(cs)` within `cs`.
pub fn trim_bounds(cs: &[char]) -> (r: (usize, usize))
    ensures
        r.0 <= r.1 <= cs@.len(),
        cs@.subrange(r.0 as int, r.1 as int) == trim(cs@),
{
    let b = trim_end_len(cs);
    let mut a: usize = 0;
    let ghost t = cs@.take(b as int);
    proof {
        assert(t.subrange(0, b as int) == t);
    }
    while a < b && char_is_whitespace(cs[a])
        invariant
            a <= b <= cs@.len(),
            t == cs@.take(b as int),
            trim_start(cs@.subrange(a as int, b as int)) == trim_start(t),
        decreases b - a,
    {
        assert(cs@.subrange(a as int, b as int).drop_first() == cs@.subrange(a as int + 1, b as int));
        a += 1;
    }
    proof {
        lemma_trim_start_suffix(cs@.subrange(a as int, b as int));
    }
    (a, b)
}

/// Whether `s[from..to]` ends with `p`.
pub fn range_ends_with(s: &[char], from: usize, to: usize, p: &[char]) -> (r: bool)
    requires
        from <= to <= s@.len(),
    ensures
        r == ends_with(s@.subrange(from as int, to as int), p@),
{
    if to - from < p.len() {
        return false;
    }
    let base = to - p.len();
    let mut i: usize = 0;
    while i < p.len()
        invariant
            from <= base,
            base + p@.len() == to <= s@.len(),
            i <= p@.len(),
            forall|k: int| 0 <= k < i ==> s@[base + k] == p@[k],
        decreases p.len() - i,
    {
        if s[base + i] != p[i] {
            assert(s@.subrange(from as int, to as int).skip(base - from)[i as int] != p@[i as int]);
            return false;
        }
        i += 1;
    }
    assert(s@.subrange(from as int, to as int).skip(base - from) =~= p@);
    true
}

/// Whether `p` occurs in `s[from..to]`.
pub fn range_contains(s: &[char], from: usize, to: usize, p: &[char]) -> (r: bool)
    requires
        from <= to <= s@.len(),
    ensures
        r == contains_seq(s@.subrange(from as int, to as int), p@),
{
    let ghost t = s@.subrange(from as int, to as int);
    if to - from < p.len() {
        assert forall|i: int| 0 <= i && i + p@.len() <= t.len() implies #[trigger] t.subrange(i, i + p@.len()) != p@ by {}
        return false;
    }
    let last = to - p.len();
    let mut i: usize = from;
    while i <= last
        invariant
            from <= i <= last + 1,
            last + p@.len() == to <= s@.len(),
            t == s@.subrange(from as int, to as int),
            forall|k: int| 0 <= k < i - from ==> #[trigger] t.subrange(k, k + p@.len()) != p@,
        decreases last + 1 - i,
    {
        let mut j: usize = 0;
        let mut same = true;
        while j < p.len()
            invariant
                from <= i <= last,
                last + p@.len() == to <= s@.len(),
                j <= p@.len(),
                same == (forall|k: int| 0 <= k < j ==> s@[i + k] == p@[k]),
            decreases p.len() - j,
        {
            if s[i + j] != p[j] {
                same = false;
            }
            j += 1;
        }
        let ghost w = t.subrange(i - from, i - from + p@.len());
        assert(forall|k: int| 0 <= k < p@.len() ==> w[k] == s@[i + k]);
        if same {
            assert(w =~= p@);
            return true;
        } else {
            assert(w != p@) by {
                let k = choose|k: int| 0 <= k < p@.len() && s@[i + k] != p@[k];
                assert(w[k] != p@[k]);
            }
        }
        i += 1;
    }
    assert forall|k: int| 0 <= k && k + p@.len() <= t.len() implies #[trigger] t.subrange(k, k + p@.len()) != p@ by {
        assert(k < i - from);
    }
    false
}

} // verus!
