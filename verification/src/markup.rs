//! Recognising markup tags on a line of text.

use crate::chars::{
    chars_to_string, contains_seq, ends_with, range_contains, range_ends_with, str_to_chars,
    trim_end, trim_end_len,
};
use vstd::prelude::*;

verus! {

pub open spec fn is_ascii_alpha(c: char) -> bool {
    ('A' <= c && c <= 'Z') || ('a' <= c && c <= 'z')
}

pub open spec fn is_ascii_alnum(c: char) -> bool {
    is_ascii_alpha(c) || ('0' <= c && c <= '9')
}

/// A character that may continue a tag name.
pub open spec fn is_tag_name_char(c: char) -> bool {
    is_ascii_alnum(c) || c == ':' || c == '_' || c == '-'
}

/// The length of the longest prefix of `s` made of tag-name characters.
pub open spec fn name_run_len(s: Seq<char>) -> nat
    decreases s.len(),
{
    if s.len() > 0 && is_tag_name_char(s[0]) {
        1 + name_run_len(s.drop_first())
    } else {
        0
    }
}

/// The index of the first `c` in `s`, if any.
pub open spec fn index_of(s: Seq<char>, c: char) -> Option<int>
    decreases s.len(),
{
    if s.len() == 0 {
        None
    } else if s[0] == c {
        Some(0)
    } else {
        match index_of(s.drop_first(), c) {
            Some(k) => Some(k + 1),
            None => None,
        }
    }
}

/// The name of the tag that `line` opens, if it opens one: the line,
/// without trailing white space, ends with `>` but not with `/>` or `-->`,
/// and its first `<` is followed by an ASCII letter; the name is that
/// letter and the tag-name characters after it.
pub open spec fn opening_tag_name(line: Seq<char>) -> Option<Seq<char>> {
    let t = trim_end(line);
    if !ends_with(t, seq!['>']) || ends_with(t, seq!['/', '>']) || ends_with(t, seq!['-', '-', '>']) {
        None
    } else {
        match index_of(t, '<') {
            None => None,
            Some(st) => {
                let rest = t.skip(st + 1);
                if rest.len() == 0 || !is_ascii_alpha(rest[0]) {
                    None
                } else {
                    Some(rest.take(1 + name_run_len(rest.drop_first()) as int))
                }
            },
        }
    }
}

/// `line` holds `<tag` but neither `</tag` nor a closing `/>` at its end.
pub open spec fn opens_tag(line: Seq<char>, tag: Seq<char>) -> bool {
    &&& contains_seq(line, seq!['<'] + tag)
    &&& !contains_seq(line, seq!['<', '/'] + tag)
    &&& !ends_with(line, seq!['/', '>'])
}

/// `line` holds `</tag`.
pub open spec fn closes_tag(line: Seq<char>, tag: Seq<char>) -> bool {
    contains_seq(line, seq!['<', '/'] + tag)
}

fn is_ascii_alpha_char(c: char) -> (r: bool)
    ensures
        r == is_ascii_alpha(c),
{
    ('A' <= c && c <= 'Z') || ('a' <= c && c <= 'z')
}

fn is_tag_name_char_exec(c: char) -> (r: bool)
    ensures
        r == is_tag_name_char(c),
{
    is_ascii_alpha_char(c) || ('0' <= c && c <= '9') || c == ':' || c == '_' || c == '-'
}

/// `prefix` followed by `rest`.
pub(crate) fn concat_chars(prefix: &[char], rest: &[char]) -> (v: Vec<char>)
    ensures
        v@ == prefix@ + rest@,
{
    let mut v: Vec<char> = Vec::new();
    let mut i: usize = 0;
    while i < prefix.len()
        invariant
            i <= prefix@.len(),
            v@ == prefix@.take(i as int),
        decreases prefix.len() - i,
    {
        v.push(prefix[i]);
        assert(prefix@.take(i as int + 1) == prefix@.take(i as int).push(prefix@[i as int]));
        i += 1;
    }
    let mut j: usize = 0;
    assert(prefix@.take(prefix@.len() as int) == prefix@);
    while j < rest.len()
        invariant
            j <= rest@.len(),
            v@ == prefix@ + rest@.take(j as int),
        decreases rest.len() - j,
    {
        v.push(rest[j]);
        assert(rest@.take(j as int + 1) == rest@.take(j as int).push(rest@[j as int]));
        j += 1;
    }
    assert(rest@.take(rest@.len() as int) == rest@);
    v
}

/// The index of the first `c` in `cs[..n]`, if any.
fn first_index(cs: &[char], n: usize, c: char) -> (r: Option<usize>)
    requires
        n <= cs@.len(),
    ensures
        r == (match index_of(cs@.take(n as int), c) {
            Some(k) => Some(k as usize),
            None => None::<usize>,
        }),
{
    let mut i: usize = n;
    let mut found: Option<usize> = None;
    while i > 0
        invariant
            i <= n <= cs@.len(),
            found == (match index_of(cs@.subrange(i as int, n as int), c) {
                Some(k) => Some((k + i) as usize),
                None => None::<usize>,
            }),
        decreases i,
    {
        let j = i - 1;
        assert(cs@.subrange(j as int, n as int).drop_first() == cs@.subrange(i as int, n as int));
        if cs[j] == c {
            found = Some(j);
        }
        i = j;
    }
    assert(cs@.subrange(0, n as int) == cs@.take(n as int));
    found
}

/// The name of the tag that `line` opens, if it opens one (see
/// `opening_tag_name`).
pub fn extract_opening_tag_name(line: &str) -> (name: Option<String>)
    ensures
        match opening_tag_name(line@) {
            Some(n) => name is Some && name.unwrap()@ == n,
            None => name is None,
        },
{
    let cs = str_to_chars(line);
    let n = trim_end_len(cs.as_slice());
    let ghost t = cs@.take(n as int);
    assert(cs@.subrange(0, n as int) == t);
    let gt = vec!['>'];
    let slash_gt = vec!['/', '>'];
    let comment_end = vec!['-', '-', '>'];
    assert(gt@ == seq!['>']);
    assert(slash_gt@ == seq!['/', '>']);
    assert(comment_end@ == seq!['-', '-', '>']);
    if !range_ends_with(cs.as_slice(), 0, n, gt.as_slice()) || range_ends_with(
        cs.as_slice(),
        0,
        n,
        slash_gt.as_slice(),
    ) || range_ends_with(cs.as_slice(), 0, n, comment_end.as_slice()) {
        return None;
    }
    let start = match first_index(cs.as_slice(), n, '<') {
        Some(s) => s,
        None => return None,
    };
    proof {
        lemma_index_of_bound(t, '<');
    }
    let first_at = start + 1;
    if first_at >= n {
        return None;
    }
    let first = cs[first_at];
    if !is_ascii_alpha_char(first) {
        return None;
    }
    let ghost rest = t.skip(first_at as int);
    assert(rest[0] == first);
    assert(t.skip(first_at as int + 1) == rest.drop_first());
    let mut end = first_at + 1;
    while end < n && is_tag_name_char_exec(cs[end])
        invariant
            first_at < end <= n <= cs@.len(),
            t == cs@.take(n as int),
            rest == t.skip(first_at as int),
            1 + name_run_len(rest.drop_first()) == (end - first_at) + name_run_len(
                t.skip(end as int),
            ),
        decreases n - end,
    {
        assert(t.skip(end as int).drop_first() == t.skip(end as int + 1));
        end += 1;
    }
    assert(t.skip(first_at as int + 1) == rest.drop_first());
    assert(rest.take((end - first_at) as int) == cs@.subrange(first_at as int, end as int));
    Some(chars_to_string(cs.as_slice(), first_at, end))
}

proof fn lemma_index_of_bound(s: Seq<char>, c: char)
    ensures
        index_of(s, c) matches Some(k) ==> 0 <= k < s.len() && s[k] == c,
    decreases s.len(),
{
    if s.len() > 0 && s[0] != c {
        lemma_index_of_bound(s.drop_first(), c);
    }
}

/// Whether `line` holds `<tag_name` but neither `</tag_name` nor a closing
/// `/>` at its end.
pub fn contains_same_tag_opening(line: &str, tag_name: &str) -> (r: bool)
    ensures
        r == opens_tag(line@, tag_name@),
{
    let cs = str_to_chars(line);
    let tag = str_to_chars(tag_name);
    let lt = vec!['<'];
    let lt_slash = vec!['<', '/'];
    let slash_gt = vec!['/', '>'];
    assert(lt@ == seq!['<']);
    assert(lt_slash@ == seq!['<', '/']);
    assert(slash_gt@ == seq!['/', '>']);
    let opening = concat_chars(lt.as_slice(), tag.as_slice());
    let closing = concat_chars(lt_slash.as_slice(), tag.as_slice());
    let n = cs.len();
    assert(cs@.subrange(0, n as int) == cs@);
    range_contains(cs.as_slice(), 0, n, opening.as_slice()) && !range_contains(
        cs.as_slice(),
        0,
        n,
        closing.as_slice(),
    ) && !range_ends_with(cs.as_slice(), 0, n, slash_gt.as_slice())
}

/// Whether `line` holds `</tag_name`.
pub fn contains_same_tag_closing(line: &str, tag_name: &str) -> (r: bool)
    ensures
        r == closes_tag(line@, tag_name@),
{
    let cs = str_to_chars(line);
    let tag = str_to_chars(tag_name);
    let lt_slash = vec!['<', '/'];
    assert(lt_slash@ == seq!['<', '/']);
    let closing = concat_chars(lt_slash.as_slice(), tag.as_slice());
    let n = cs.len();
    assert(cs@.subrange(0, n as int) == cs@);
    range_contains(cs.as_slice(), 0, n, closing.as_slice())
}

} // verus!
