//! The matching bracket of a matching bracket is the bracket one started
//! from.

use crate::editor::{
    bracket_partner, brackets_pair, is_close_bracket, is_open_bracket,
    lemma_matching_bracket_in_text, matching_bracket, matching_bracket_answer,
    search_backward, search_forward,
};
use vstd::prelude::*;

verus! {

/// The number of `open` minus the number of `close` among `text[i..j]`.
pub open spec fn balance(text: Seq<char>, open: char, close: char, i: int, j: int) -> int
    decreases j - i,
{
    if j <= i {
        0
    } else {
        balance(text, open, close, i, j - 1) + if text[j - 1] == open {
            1int
        } else if text[j - 1] == close {
            -1int
        } else {
            0int
        }
    }
}

proof fn lemma_balance_single(text: Seq<char>, open: char, close: char, i: int)
    ensures
        balance(text, open, close, i, i) == 0,
        balance(text, open, close, i, i + 1) == if text[i] == open {
            1int
        } else if text[i] == close {
            -1int
        } else {
            0int
        },
{
    reveal_with_fuel(balance, 2);
}

proof fn lemma_balance_split(text: Seq<char>, open: char, close: char, i: int, j: int, k: int)
    requires
        i <= j <= k,
    ensures
        balance(text, open, close, i, k) == balance(text, open, close, i, j) + balance(
            text,
            open,
            close,
            j,
            k,
        ),
    decreases k - j,
{
    if j < k {
        lemma_balance_split(text, open, close, i, j, k - 1);
    }
}

proof fn lemma_forward_found(text: Seq<char>, o: char, c: char, idx: int, d: int, q: int)
    requires
        o != c,
        d >= 1,
        search_forward(text, o, c, idx, d) == Some(q),
    ensures
        idx <= q < text.len(),
        text[q] == c,
        d + balance(text, o, c, idx, q) == 1,
        forall|m: int| idx <= m <= q ==> d + #[trigger] balance(text, o, c, idx, m) >= 1,
    decreases text.len() - idx,
{
    lemma_balance_single(text, o, c, idx);
    if text[idx] == o {
        lemma_forward_found(text, o, c, idx + 1, d + 1, q);
        assert forall|m: int| idx <= m <= q implies d + #[trigger] balance(text, o, c, idx, m) >= 1 by {
            if m > idx {
                lemma_balance_split(text, o, c, idx, idx + 1, m);
                assert(d + 1 + balance(text, o, c, idx + 1, m) >= 1);
            }
        }
        lemma_balance_split(text, o, c, idx, idx + 1, q);
    } else if text[idx] == c {
        if d - 1 != 0 {
            lemma_forward_found(text, o, c, idx + 1, d - 1, q);
            assert forall|m: int| idx <= m <= q implies d + #[trigger] balance(text, o, c, idx, m)
                >= 1 by {
                if m > idx {
                    lemma_balance_split(text, o, c, idx, idx + 1, m);
                    assert(d - 1 + balance(text, o, c, idx + 1, m) >= 1);
                }
            }
            lemma_balance_split(text, o, c, idx, idx + 1, q);
        }
    } else {
        lemma_forward_found(text, o, c, idx + 1, d, q);
        assert forall|m: int| idx <= m <= q implies d + #[trigger] balance(text, o, c, idx, m) >= 1 by {
            if m > idx {
                lemma_balance_split(text, o, c, idx, idx + 1, m);
                assert(d + balance(text, o, c, idx + 1, m) >= 1);
            }
        }
        lemma_balance_split(text, o, c, idx, idx + 1, q);
    }
}

proof fn lemma_backward_found(text: Seq<char>, a: char, b: char, j: int, d: int, q: int)
    requires
        a != b,
        d >= 1,
        search_backward(text, a, b, j, d) == Some(q),
    ensures
        0 <= q < j <= text.len(),
        text[q] == b,
        d + balance(text, a, b, q, j) == 0,
        forall|m: int| q < m <= j ==> d + #[trigger] balance(text, a, b, m, j) >= 1,
    decreases j,
{
    lemma_balance_single(text, a, b, j - 1);
    if text[j - 1] == a {
        lemma_backward_found(text, a, b, j - 1, d + 1, q);
        assert forall|m: int| q < m <= j implies d + #[trigger] balance(text, a, b, m, j) >= 1 by {
            if m < j {
                assert(d + 1 + balance(text, a, b, m, j - 1) >= 1);
            }
        }
    } else if text[j - 1] == b {
        if d - 1 != 0 {
            lemma_backward_found(text, a, b, j - 1, d - 1, q);
            assert forall|m: int| q < m <= j implies d + #[trigger] balance(text, a, b, m, j) >= 1 by {
                if m < j {
                    assert(d - 1 + balance(text, a, b, m, j - 1) >= 1);
                }
            }
        }
    } else {
        lemma_backward_found(text, a, b, j - 1, d, q);
        assert forall|m: int| q < m <= j implies d + #[trigger] balance(text, a, b, m, j) >= 1 by {
            if m < j {
                assert(d + balance(text, a, b, m, j - 1) >= 1);
            }
        }
    }
}

/// Scanning back from `j` over a balanced run finds the opener at `p`.
proof fn lemma_backward_reaches(text: Seq<char>, o: char, c: char, p: int, q: int, j: int)
    requires
        o != c,
        0 <= p < j <= q < text.len(),
        text[p] == o,
        balance(text, o, c, p, q) == 1,
        forall|m: int| p < m <= q ==> #[trigger] balance(text, o, c, m, q) <= 0,
    ensures
        search_backward(text, c, o, j, 1 - balance(text, o, c, j, q)) == Some(p),
    decreases j,
{
    lemma_balance_single(text, o, c, j - 1);
    lemma_balance_split(text, o, c, j - 1, j, q);
    if j - 1 == p {
    } else {
        assert(balance(text, o, c, j - 1, q) <= 0);
        lemma_backward_reaches(text, o, c, p, q, j - 1);
    }
}

/// Scanning forward from `k` over a balanced run finds the closer at `p`.
proof fn lemma_forward_reaches(text: Seq<char>, a: char, b: char, q: int, p: int, k: int)
    requires
        a != b,
        0 <= q < k <= p < text.len(),
        text[p] == a,
        balance(text, a, b, q + 1, p) == 0,
        forall|m: int| q < m <= p ==> #[trigger] balance(text, a, b, m, p) >= 0,
    ensures
        search_forward(text, b, a, k, 1 - balance(text, a, b, q + 1, k)) == Some(p),
    decreases p - k,
{
    lemma_balance_single(text, a, b, k);
    lemma_balance_single(text, a, b, q + 1);
    lemma_balance_split(text, a, b, q + 1, k, k + 1);
    if k < p {
        lemma_balance_split(text, a, b, q + 1, k + 1, p);
        assert(balance(text, a, b, k + 1, p) >= 0);
        lemma_forward_reaches(text, a, b, q, p, k + 1);
    }
}

/// The bracket that matches the match of a bracket is that bracket.
pub proof fn law_matching_bracket_symmetric(text: Seq<char>, p: int, q: int)
    requires
        matching_bracket(text, p) == Some(q),
    ensures
        matching_bracket(text, q) == Some(p),
{
    let o = text[p];
    let (m, forward) = bracket_partner(o).unwrap();
    lemma_balance_single(text, o, m, p);
    if forward {
        lemma_forward_found(text, o, m, p + 1, 1, q);
        lemma_balance_split(text, o, m, p, p + 1, q);
        assert forall|k: int| p < k <= q implies #[trigger] balance(text, o, m, k, q) <= 0 by {
            lemma_balance_split(text, o, m, p + 1, k, q);
            assert(1 + balance(text, o, m, p + 1, k) >= 1);
        }
        lemma_backward_reaches(text, o, m, p, q, q);
        assert(bracket_partner(text[q]) == Some((o, false)));
    } else {
        lemma_backward_found(text, o, m, p, 1, q);
        lemma_balance_single(text, o, m, q);
        lemma_balance_split(text, o, m, q, q + 1, p);
        assert(balance(text, o, m, q + 1, p) == 0);
        lemma_forward_reaches(text, o, m, q, p, q + 1);
        assert(bracket_partner(text[q]) == Some((o, true)));
    }
}

/// Asking for the match of the answer to a request gives back the bracket
/// that was asked about: a bracket and its match answer each other.  The
/// text is held to fewer than 2^63 characters, where an answer is the
/// position itself.
pub proof fn law_matching_bracket_answer_round_trip(text: Seq<char>, target: i32)
    requires
        text.len() <= i64::MAX,
        0 <= matching_bracket_answer(text, target) <= i32::MAX,
    ensures
        matching_bracket_answer(text, matching_bracket_answer(text, target) as i32) == target,
{
    let p = matching_bracket(text, target as int)->Some_0;
    lemma_matching_bracket_in_text(text, target as int);
    assert(matching_bracket_answer(text, target) == p);
    law_matching_bracket_symmetric(text, target as int, p);
}

/// Scanning forward from `idx` with `d` unmatched openers stops at `q`
/// when `q` is the first position at which the count comes down to zero.
proof fn lemma_forward_hits(text: Seq<char>, o: char, c: char, idx: int, d: int, q: int)
    requires
        o != c,
        0 <= idx <= q < text.len(),
        d >= 1,
        forall|m: int| idx <= m <= q ==> d + #[trigger] balance(text, o, c, idx, m) >= 1,
        d + balance(text, o, c, idx, q + 1) == 0,
    ensures
        search_forward(text, o, c, idx, d) == Some(q),
    decreases q - idx,
{
    lemma_balance_single(text, o, c, idx);
    let v = balance(text, o, c, idx, idx + 1);
    if idx == q {
    } else {
        assert(d + balance(text, o, c, idx, idx + 1) >= 1);
        assert forall|m: int| idx + 1 <= m <= q implies d + v + #[trigger] balance(
            text,
            o,
            c,
            idx + 1,
            m,
        ) >= 1 by {
            lemma_balance_split(text, o, c, idx, idx + 1, m);
            assert(d + balance(text, o, c, idx, m) >= 1);
        }
        lemma_balance_split(text, o, c, idx, idx + 1, q + 1);
        lemma_forward_hits(text, o, c, idx + 1, d + v, q);
    }
}

/// Scanning back from `j` with `d` unmatched closers stops at `q` when `q`
/// is the first position, reading back, at which the count comes down to
/// zero.
proof fn lemma_backward_hits(text: Seq<char>, a: char, b: char, j: int, d: int, q: int)
    requires
        a != b,
        0 <= q < j <= text.len(),
        d >= 1,
        forall|m: int| q < m <= j ==> d + #[trigger] balance(text, a, b, m, j) >= 1,
        d + balance(text, a, b, q, j) == 0,
    ensures
        search_backward(text, a, b, j, d) == Some(q),
    decreases j - q,
{
    lemma_balance_single(text, a, b, j - 1);
    let v = balance(text, a, b, j - 1, j);
    if j - 1 == q {
    } else {
        assert(d + balance(text, a, b, j - 1, j) >= 1);
        assert forall|m: int| q < m <= j - 1 implies d + v + #[trigger] balance(text, a, b, m, j - 1)
            >= 1 by {
            lemma_balance_split(text, a, b, m, j - 1, j);
            assert(d + balance(text, a, b, m, j) >= 1);
        }
        lemma_balance_split(text, a, b, q, j - 1, j);
        lemma_backward_hits(text, a, b, j - 1, d + v, q);
    }
}

/// `q` closes the opener `o` at `p`: reading on from `p`, `q` is the first
/// position after which as many closers `c` as openers `o` have been read.
pub open spec fn closes_at(text: Seq<char>, o: char, c: char, p: int, q: int) -> bool {
    &&& p < q < text.len()
    &&& balance(text, o, c, p, q + 1) == 0
    &&& forall|m: int| p < m <= q ==> #[trigger] balance(text, o, c, p, m) >= 1
}

/// `q` opens the closer `c` at `p`: reading back from `p`, `q` is the first
/// position from which as many openers `o` as closers `c` have been read.
pub open spec fn opens_at(text: Seq<char>, o: char, c: char, q: int, p: int) -> bool {
    &&& 0 <= q < p
    &&& balance(text, c, o, q, p + 1) == 0
    &&& forall|m: int| q < m <= p ==> #[trigger] balance(text, c, o, m, p + 1) >= 1
}

/// What the matching bracket is, read directly: an opener is matched by
/// the first closer of its kind at which the brackets of that kind read
/// since it balance out, a closer by the first opener of its kind, reading
/// back, at which they balance out; any other character has no match.
pub proof fn law_matching_bracket_by_balance(text: Seq<char>, o: char, c: char, p: int, q: int)
    requires
        brackets_pair(o, c),
        0 <= p < text.len(),
    ensures
        text[p] == o ==> (matching_bracket(text, p) == Some(q) <==> closes_at(text, o, c, p, q)),
        text[p] == c ==> (matching_bracket(text, p) == Some(q) <==> opens_at(text, o, c, q, p)),
        !is_open_bracket(text[p]) && !is_close_bracket(text[p]) ==> matching_bracket(text, p)
            is None,
{
    if text[p] == o {
        assert(bracket_partner(o) == Some((c, true)));
        lemma_balance_single(text, o, c, p);
        if matching_bracket(text, p) == Some(q) {
            lemma_forward_found(text, o, c, p + 1, 1, q);
            lemma_balance_single(text, o, c, q);
            lemma_balance_split(text, o, c, p, p + 1, q);
            lemma_balance_split(text, o, c, p, q, q + 1);
            assert forall|m: int| p < m <= q implies #[trigger] balance(text, o, c, p, m) >= 1 by {
                lemma_balance_split(text, o, c, p, p + 1, m);
                assert(1 + balance(text, o, c, p + 1, m) >= 1);
            }
        }
        if closes_at(text, o, c, p, q) {
            assert forall|m: int| p + 1 <= m <= q implies 1 + #[trigger] balance(
                text,
                o,
                c,
                p + 1,
                m,
            ) >= 1 by {
                lemma_balance_split(text, o, c, p, p + 1, m);
                assert(balance(text, o, c, p, m) >= 1);
            }
            lemma_balance_split(text, o, c, p, p + 1, q + 1);
            lemma_forward_hits(text, o, c, p + 1, 1, q);
        }
    } else if text[p] == c {
        assert(bracket_partner(c) == Some((o, false)));
        lemma_balance_single(text, c, o, p);
        if matching_bracket(text, p) == Some(q) {
            lemma_backward_found(text, c, o, p, 1, q);
            lemma_balance_split(text, c, o, q, p, p + 1);
            assert forall|m: int| q < m <= p implies #[trigger] balance(text, c, o, m, p + 1) >= 1 by {
                lemma_balance_split(text, c, o, m, p, p + 1);
                assert(1 + balance(text, c, o, m, p) >= 1);
            }
        }
        if opens_at(text, o, c, q, p) {
            assert forall|m: int| q < m <= p implies 1 + #[trigger] balance(text, c, o, m, p) >= 1 by {
                lemma_balance_split(text, c, o, m, p, p + 1);
                assert(balance(text, c, o, m, p + 1) >= 1);
            }
            lemma_balance_split(text, c, o, q, p, p + 1);
            lemma_backward_hits(text, c, o, p, 1, q);
        }
    }
}

} // verus!
