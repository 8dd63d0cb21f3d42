//! The line structure of a text, as the rope defines it.
//!
//! A line break is one of LF, VT, FF, CR, NEL, LS, PS, or the pair CR LF,
//! which counts as a single break.  Line 0 starts at the start of the text
//! and every other line starts right after a line break; a break belongs to
//! the line that it ends.  A text with `k` breaks has `k + 1` lines, the
//! last of which may be empty.

use vstd::prelude::*;

verus! {

pub open spec fn is_line_break_char(c: char) -> bool {
    c == '\n' || c == '\u{0B}' || c == '\u{0C}' || c == '\r' || c == '\u{85}' || c == '\u{2028}'
        || c == '\u{2029}'
}

/// A line break ends right before position `e` of `text`.
pub open spec fn break_ends_at(text: Seq<char>, e: int) -> bool {
    &&& 1 <= e <= text.len()
    &&& is_line_break_char(text[e - 1])
    &&& !(text[e - 1] == '\r' && e < text.len() && text[e] == '\n')
}

/// The positions `e <= p` at which a line break ends, in increasing order.
pub open spec fn break_ends(text: Seq<char>, p: int) -> Seq<int>
    decreases p,
{
    if p <= 0 {
        Seq::empty()
    } else if break_ends_at(text, p) {
        break_ends(text, p - 1).push(p)
    } else {
        break_ends(text, p - 1)
    }
}

/// The index of the line that holds position `c` (the number of line
/// breaks that end at or before `c`).
pub open spec fn line_of(text: Seq<char>, c: int) -> nat {
    break_ends(text, c).len()
}

/// The number of lines of `text`.
pub open spec fn line_count(text: Seq<char>) -> nat {
    break_ends(text, text.len() as int).len() + 1
}

/// The position at which line `l` starts; `text.len()` for `l` at or past
/// the line count.
pub open spec fn line_start(text: Seq<char>, l: int) -> int {
    if l <= 0 {
        0
    } else if l < line_count(text) {
        break_ends(text, text.len() as int)[l - 1]
    } else {
        text.len() as int
    }
}

/// The characters of line `l`, its line break included.
pub open spec fn line_text(text: Seq<char>, l: int) -> Seq<char> {
    text.subrange(line_start(text, l), line_start(text, l + 1))
}

/// Every recorded break end lies in `1..=p`, and they strictly increase.
pub proof fn lemma_break_ends_sorted(text: Seq<char>, p: int)
    ensures
        forall|i: int|
            0 <= i < break_ends(text, p).len() ==> 1 <= #[trigger] break_ends(text, p)[i] <= p,
        forall|i: int, j: int|
            0 <= i < j < break_ends(text, p).len() ==> break_ends(text, p)[i] < break_ends(
                text,
                p,
            )[j],
        forall|i: int|
            0 <= i < break_ends(text, p).len() ==> break_ends_at(text, #[trigger] break_ends(text, p)[i]),
    decreases p,
{
    if p > 0 {
        lemma_break_ends_sorted(text, p - 1);
        let prev = break_ends(text, p - 1);
        if break_ends_at(text, p) {
            let cur = break_ends(text, p);
            assert(cur == prev.push(p));
            assert forall|i: int| 0 <= i < cur.len() implies 1 <= #[trigger] cur[i] <= p by {
                if i < prev.len() {
                    assert(cur[i] == prev[i]);
                }
            }
            assert forall|i: int, j: int| 0 <= i < j < cur.len() implies cur[i] < cur[j] by {
                assert(cur[i] == prev[i]);
                if j < prev.len() {
                    assert(cur[j] == prev[j]);
                }
            }
            assert forall|i: int| 0 <= i < cur.len() implies break_ends_at(text, #[trigger] cur[i]) by {
                if i < prev.len() {
                    assert(cur[i] == prev[i]);
                }
            }
        }
    }
}

/// For `p <= q`, the break ends up to `p` are a prefix of those up to `q`.
pub proof fn lemma_break_ends_prefix(text: Seq<char>, p: int, q: int)
    requires
        p <= q,
    ensures
        break_ends(text, p).len() <= break_ends(text, q).len(),
        break_ends(text, q).take(break_ends(text, p).len() as int) == break_ends(text, p),
    decreases q - p,
{
    if p < q {
        lemma_break_ends_prefix(text, p, q - 1);
        if q > 0 && break_ends_at(text, q) {
            assert(break_ends(text, q).take(break_ends(text, p).len() as int) == break_ends(
                text,
                q - 1,
            ).take(break_ends(text, p).len() as int));
        }
    }
}

/// Line starts lie within the text and do not decrease.
pub proof fn lemma_line_start_monotonic(text: Seq<char>, l1: int, l2: int)
    requires
        l1 <= l2,
    ensures
        0 <= line_start(text, l1) <= line_start(text, l2) <= text.len(),
{
    lemma_break_ends_sorted(text, text.len() as int);
}

/// Line `l` starts at or before every position on it.
pub proof fn lemma_line_start_of_line_of(text: Seq<char>, c: int)
    requires
        0 <= c <= text.len(),
    ensures
        line_of(text, c) < line_count(text),
        line_start(text, line_of(text, c) as int) <= c,
{
    lemma_break_ends_prefix(text, c, text.len() as int);
    lemma_break_ends_sorted(text, c);
    let k = line_of(text, c) as int;
    if k > 0 {
        let full = break_ends(text, text.len() as int);
        assert(full.take(k)[k - 1] == break_ends(text, c)[k - 1]);
    }
}

/// A break that ends at or before `q` is recorded among the break ends up
/// to `q`.
pub proof fn lemma_break_end_recorded(text: Seq<char>, p: int, q: int)
    requires
        break_ends_at(text, p),
        p <= q,
    ensures
        exists|k: int| 0 <= k < break_ends(text, q).len() && #[trigger] break_ends(text, q)[k] == p,
    decreases q,
{
    if q > p {
        lemma_break_end_recorded(text, p, q - 1);
        let k = choose|k: int| 0 <= k < break_ends(text, q - 1).len() && #[trigger] break_ends(text, q - 1)[k] == p;
        if break_ends_at(text, q) {
            assert(break_ends(text, q) == break_ends(text, q - 1).push(q));
        } else {
            assert(break_ends(text, q) == break_ends(text, q - 1));
        }
        assert(break_ends(text, q)[k] == p);
    } else {
        let e = break_ends(text, q);
        assert(e == break_ends(text, q - 1).push(q));
        assert(e[e.len() - 1] == p);
    }
}

/// No line break ends strictly inside a line.
pub proof fn lemma_no_break_inside_line(text: Seq<char>, l: int, p: int)
    requires
        0 <= l < line_count(text),
        line_start(text, l) < p < line_start(text, l + 1),
    ensures
        !break_ends_at(text, p),
{
    let ends = break_ends(text, text.len() as int);
    lemma_break_ends_sorted(text, text.len() as int);
    if break_ends_at(text, p) {
        lemma_break_end_recorded(text, p, text.len() as int);
        let k = choose|k: int| 0 <= k < ends.len() && #[trigger] ends[k] == p;
        if l >= 1 {
            assert(ends[l - 1] < ends[k]);
        }
        if l + 1 < line_count(text) {
            assert(ends[k] < ends[l]);
        }
    }
}

/// `s` without a trailing CR LF or LF (a lone trailing CR is kept).
pub open spec fn strip_newline(s: Seq<char>) -> Seq<char> {
    if s.len() >= 2 && s[s.len() - 2] == '\r' && s[s.len() - 1] == '\n' {
        s.take(s.len() - 2)
    } else if s.len() >= 1 && s[s.len() - 1] == '\n' {
        s.take(s.len() - 1)
    } else {
        s
    }
}

/// Line `l` of `text` without its trailing CR LF or LF.
pub open spec fn stripped_line(text: Seq<char>, l: int) -> Seq<char> {
    strip_newline(line_text(text, l))
}

/// The length of `cs` once a trailing CR LF or LF is dropped.
pub fn newline_free_len(cs: &[char]) -> (n: usize)
    ensures
        n <= cs@.len(),
        cs@.take(n as int) == strip_newline(cs@),
{
    let len = cs.len();
    if len >= 2 && cs[len - 2] == '\r' && cs[len - 1] == '\n' {
        len - 2
    } else if len >= 1 && cs[len - 1] == '\n' {
        len - 1
    } else {
        assert(cs@.take(len as int) == cs@);
        len
    }
}

} // verus!
