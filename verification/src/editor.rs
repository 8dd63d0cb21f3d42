//! Code-structure queries over a buffer: bracket folds and bracket
//! matching; indentation guides and words live in their own modules and
//! are re-exported here.

use crate::rope::RopeBridge;
use crate::text_rope::{rope_char, rope_len_chars, rope_text, rope_to_string};
use ropey::Rope;
use vstd::prelude::*;

pub use crate::guides::guides_compute_viewport;
pub use crate::words::words_extract;

verus! {

/// A foldable region: the lines `start_line..=end_line` between an opening
/// bracket and its partner.
pub struct RustFoldRange {
    pub start_line: i32,
    pub end_line: i32,
}

/// An indentation guide: a block that starts on `start_line` and covers
/// the lines before `end_line`, indented by `leading_spaces` columns
/// (`indent_level` tab stops).
#[derive(Clone, Debug)]
pub struct GuideBlock {
    pub start_line: i32,
    pub end_line: i32,
    pub indent_level: i32,
    pub leading_spaces: i32,
}

pub open spec fn is_open_bracket(c: char) -> bool {
    c == '{' || c == '[' || c == '('
}

pub open spec fn is_close_bracket(c: char) -> bool {
    c == '}' || c == ']' || c == ')'
}

/// `o` and `c` are the two halves of one kind of bracket.
pub open spec fn brackets_pair(o: char, c: char) -> bool {
    (o == '{' && c == '}') || (o == '[' && c == ']') || (o == '(' && c == ')')
}

/// The number of LF characters in `s`.
pub open spec fn count_newlines(s: Seq<char>) -> nat
    decreases s.len(),
{
    if s.len() == 0 {
        0
    } else {
        count_newlines(s.drop_last()) + if s.last() == '\n' {
            1nat
        } else {
            0nat
        }
    }
}

/// After the first `n` characters of `s`: the folds found, the stack of
/// open brackets with the line each opened on, and the current line
/// (the number of LF characters read).  A closing bracket pops the stack
/// whatever its kind, and makes a fold when the kinds agree and the
/// brackets lie on different lines.
pub open spec fn fold_scan(s: Seq<char>, n: int) -> (Seq<RustFoldRange>, Seq<(char, int)>, int)
    decreases n,
{
    if n <= 0 {
        (Seq::empty(), Seq::empty(), 0)
    } else {
        let (folds, stack, line) = fold_scan(s, n - 1);
        let ch = s[n - 1];
        let line2 = if ch == '\n' {
            line + 1
        } else {
            line
        };
        if is_open_bracket(ch) {
            (folds, stack.push((ch, line2)), line2)
        } else if is_close_bracket(ch) && stack.len() > 0 {
            let (o, sl) = stack.last();
            if brackets_pair(o, ch) && sl < line2 {
                (
                    folds.push(RustFoldRange { start_line: sl as i32, end_line: line2 as i32 }),
                    stack.drop_last(),
                    line2,
                )
            } else {
                (folds, stack.drop_last(), line2)
            }
        } else {
            (folds, stack, line2)
        }
    }
}

/// The folds of `text`, in the order their closing brackets appear.
pub open spec fn fold_ranges(text: Seq<char>) -> Seq<RustFoldRange> {
    fold_scan(text, text.len() as int).0
}

proof fn lemma_fold_scan_bounds(s: Seq<char>, n: int)
    requires
        0 <= n <= s.len(),
    ensures
        fold_scan(s, n).2 == count_newlines(s.take(n)),
        forall|k: int|
            0 <= k < fold_scan(s, n).1.len() ==> 0 <= (#[trigger] fold_scan(s, n).1[k]).1
                <= fold_scan(s, n).2,
        forall|k: int|
            0 <= k < fold_scan(s, n).0.len() ==> 0 <= (#[trigger] fold_scan(s, n).0[k]).start_line
                < fold_scan(s, n).0[k].end_line <= count_newlines(s.take(n)) || count_newlines(
                s.take(n),
            ) > i32::MAX,
    decreases n,
{
    if n > 0 {
        lemma_fold_scan_bounds(s, n - 1);
        assert(s.take(n).drop_last() == s.take(n - 1));
        let (folds, stack, line) = fold_scan(s, n - 1);
        let (folds2, stack2, line2) = fold_scan(s, n);
        assert forall|k: int| 0 <= k < stack2.len() implies 0 <= (#[trigger] stack2[k]).1 <= line2 by {
            if k < stack.len() {
                assert(stack2[k] == stack[k]);
            }
        }
        assert forall|k: int| 0 <= k < folds2.len() implies 0 <= (#[trigger] folds2[k]).start_line
            < folds2[k].end_line <= count_newlines(s.take(n)) || count_newlines(s.take(n))
            > i32::MAX by {
            if k < folds.len() {
                assert(folds2[k] == folds[k]);
            } else if count_newlines(s.take(n)) <= i32::MAX {
                let (o, sl) = stack.last();
                assert(stack[stack.len() - 1] == stack.last());
            }
        }
    }
}

proof fn lemma_count_newlines_prefix(s: Seq<char>, i: int, j: int)
    requires
        0 <= i <= j <= s.len(),
    ensures
        count_newlines(s.take(i)) <= count_newlines(s.take(j)),
    decreases j - i,
{
    if i < j {
        lemma_count_newlines_prefix(s, i, j - 1);
        assert(s.take(j).drop_last() == s.take(j - 1));
    }
}

/// The line of the character at `i`: the number of LF characters up to it,
/// itself included.
pub open spec fn line_at(s: Seq<char>, i: int) -> int {
    count_newlines(s.take(i + 1)) as int
}

/// The stack entry `e` was pushed for the opener at `i`.
pub open spec fn pushed_at(s: Seq<char>, e: (char, int), i: int) -> bool {
    &&& 0 <= i < s.len()
    &&& s[i] == e.0
    &&& is_open_bracket(s[i])
    &&& e.1 == line_at(s, i)
}

/// `f` is the fold of the opener at `i` and the closer of the same kind at
/// `j`, which lie on different lines.
pub open spec fn fold_between(s: Seq<char>, f: RustFoldRange, i: int, j: int) -> bool {
    &&& 0 <= i < j < s.len()
    &&& brackets_pair(s[i], s[j])
    &&& line_at(s, i) < line_at(s, j)
    &&& f.start_line == line_at(s, i)
    &&& f.end_line == line_at(s, j)
}

spec fn pushed_before(s: Seq<char>, e: (char, int), i: int, n: int) -> bool {
    i < n && pushed_at(s, e, i)
}

spec fn fold_before(s: Seq<char>, f: RustFoldRange, w: (int, int), n: int) -> bool {
    w.1 < n && fold_between(s, f, w.0, w.1)
}

/// For each stack entry the position of its opener, and for each fold the
/// positions of its two brackets, all before `n`.
proof fn lemma_fold_scan_witness(s: Seq<char>, n: int) -> (w: (Seq<int>, Seq<(int, int)>))
    requires
        0 <= n <= s.len(),
        count_newlines(s.take(n)) <= i32::MAX,
    ensures
        w.0.len() == fold_scan(s, n).1.len(),
        forall|k: int|
            0 <= k < w.0.len() ==> pushed_before(s, #[trigger] fold_scan(s, n).1[k], w.0[k], n),
        w.1.len() == fold_scan(s, n).0.len(),
        forall|k: int|
            0 <= k < w.1.len() ==> fold_before(s, #[trigger] fold_scan(s, n).0[k], w.1[k], n),
    decreases n,
{
    if n <= 0 {
        (Seq::empty(), Seq::empty())
    } else {
        lemma_count_newlines_prefix(s, n - 1, n);
        let (ws, wf) = lemma_fold_scan_witness(s, n - 1);
        lemma_fold_scan_bounds(s, n - 1);
        lemma_fold_scan_bounds(s, n);
        let (folds, stack, line) = fold_scan(s, n - 1);
        let ch = s[n - 1];
        assert(fold_scan(s, n).2 == line_at(s, n - 1));
        if is_open_bracket(ch) {
            let ws2 = ws.push(n - 1);
            assert forall|k: int| 0 <= k < ws2.len() implies pushed_before(s, #[trigger] fold_scan(s, n).1[k], ws2[k], n) by {
                if k < ws.len() {
                    assert(fold_scan(s, n).1[k] == stack[k]);
                }
            }
            assert forall|k: int| 0 <= k < wf.len() implies fold_before(s, #[trigger] fold_scan(s, n).0[k], wf[k], n) by {
                assert(fold_scan(s, n).0[k] == folds[k]);
            }
            (ws2, wf)
        } else if is_close_bracket(ch) && stack.len() > 0 {
            let (o, sl) = stack.last();
            let i = ws[stack.len() - 1];
            assert(stack[stack.len() - 1] == stack.last());
            assert(pushed_at(s, stack[stack.len() - 1], i));
            let ws2 = ws.drop_last();
            assert forall|k: int| 0 <= k < ws2.len() implies pushed_before(s, #[trigger] fold_scan(s, n).1[k], ws2[k], n) by {
                assert(fold_scan(s, n).1[k] == stack[k]);
                assert(ws2[k] == ws[k]);
            }
            let wf2 = if brackets_pair(o, ch) && sl < fold_scan(s, n).2 {
                wf.push((i, n - 1))
            } else {
                wf
            };
            assert forall|k: int| 0 <= k < wf2.len() implies fold_before(s, #[trigger] fold_scan(s, n).0[k], wf2[k], n) by {
                if k < wf.len() {
                    assert(fold_scan(s, n).0[k] == folds[k]);
                    assert(wf2[k] == wf[k]);
                } else {
                    assert(0 <= sl <= line);
                }
            }
            (ws2, wf2)
        } else {
            assert forall|k: int| 0 <= k < ws.len() implies pushed_before(s, #[trigger] fold_scan(s, n).1[k], ws[k], n) by {
                assert(fold_scan(s, n).1[k] == stack[k]);
            }
            assert forall|k: int| 0 <= k < wf.len() implies fold_before(s, #[trigger] fold_scan(s, n).0[k], wf[k], n) by {
                assert(fold_scan(s, n).0[k] == folds[k]);
            }
            (ws, wf)
        }
    }
}

/// Each fold is a pair of brackets of one kind, an opener before a closer,
/// on different lines: it runs from the line of the opener to the line of
/// the closer, lines counted by LF characters.
pub proof fn law_fold_is_bracket_pair(text: Seq<char>, k: int)
    requires
        count_newlines(text) <= i32::MAX,
        0 <= k < fold_ranges(text).len(),
    ensures
        exists|i: int, j: int| #[trigger] fold_between(text, fold_ranges(text)[k], i, j),
{
    assert(text.take(text.len() as int) == text);
    let (ws, wf) = lemma_fold_scan_witness(text, text.len() as int);
    assert(fold_between(text, fold_ranges(text)[k], wf[k].0, wf[k].1));
}

/// `pair` matches up the brackets of `s[a..b]` so that they nest
/// properly: each opener with a later closer of its own kind, each closer
/// with an earlier opener, each bracket with the one paired with it, all
/// within the range, and no two pairs crossing.
pub open spec fn nested_by(s: Seq<char>, pair: spec_fn(int) -> int, a: int, b: int) -> bool {
    &&& forall|k: int|
        a <= k < b && is_open_bracket(s[k]) ==> k < #[trigger] pair(k) < b && pair(pair(k)) == k
            && brackets_pair(s[k], s[pair(k)])
    &&& forall|k: int|
        a <= k < b && is_close_bracket(s[k]) ==> a <= #[trigger] pair(k) < k && pair(pair(k)) == k
            && is_open_bracket(s[pair(k)])
    &&& forall|k1: int, k2: int|
        a <= k1 < k2 < pair(k1) && is_open_bracket(s[k1]) && is_open_bracket(s[k2]) ==> #[trigger] pair(
            k2,
        ) < #[trigger] pair(k1)
}

/// The folds found after `n1` characters are the first of those found
/// after `n2`.
proof fn lemma_fold_scan_grows(s: Seq<char>, n1: int, n2: int)
    requires
        0 <= n1 <= n2 <= s.len(),
    ensures
        fold_scan(s, n1).0.len() <= fold_scan(s, n2).0.len(),
        forall|k: int|
            0 <= k < fold_scan(s, n1).0.len() ==> #[trigger] fold_scan(s, n2).0[k] == fold_scan(
                s,
                n1,
            ).0[k],
    decreases n2 - n1,
{
    if n1 < n2 {
        lemma_fold_scan_grows(s, n1, n2 - 1);
        let f = fold_scan(s, n2 - 1).0;
        let f2 = fold_scan(s, n2).0;
        assert(f2 == f || (f2.len() == f.len() + 1 && forall|k: int| 0 <= k < f.len() ==> #[trigger] f2[k] == f[k]));
        assert forall|k: int| 0 <= k < fold_scan(s, n1).0.len() implies #[trigger] fold_scan(s, n2).0[k]
            == fold_scan(s, n1).0[k] by {
            assert(f[k] == fold_scan(s, n1).0[k]);
        }
    }
}

/// Reading a properly nested stretch leaves the stack of open brackets as
/// it found it.
proof fn lemma_nested_stretch(s: Seq<char>, pair: spec_fn(int) -> int, a: int, b: int)
    requires
        0 <= a <= b <= s.len(),
        nested_by(s, pair, a, b),
    ensures
        fold_scan(s, b).1 == fold_scan(s, a).1,
    decreases b - a,
{
    if a < b {
        let c = s[a];
        if is_open_bracket(c) {
            let m = pair(a);
            assert(a < m < b && pair(m) == a && brackets_pair(c, s[m]));
            assert(nested_by(s, pair, a + 1, m)) by {
                assert forall|k: int| a + 1 <= k < m && is_open_bracket(s[k]) implies k < #[trigger] pair(k) < m by {
                    assert(pair(k) < pair(a));
                }
                assert forall|k: int| a + 1 <= k < m && is_close_bracket(s[k]) implies a + 1 <= #[trigger] pair(k) by {
                    if pair(k) == a {
                        assert(pair(pair(k)) == k);
                    }
                }
            }
            lemma_nested_stretch(s, pair, a + 1, m);
            assert(nested_by(s, pair, m + 1, b)) by {
                assert forall|k: int| m + 1 <= k < b && is_close_bracket(s[k]) implies m + 1 <= #[trigger] pair(k) by {
                    let p = pair(k);
                    if p == a {
                        assert(pair(p) == k);
                    } else if a < p < m {
                        assert(is_open_bracket(s[p]));
                        assert(pair(p) < pair(a));
                        assert(pair(p) == k);
                    } else if p == m {
                        assert(is_close_bracket(s[m]));
                    }
                }
            }
            lemma_nested_stretch(s, pair, m + 1, b);
            assert(fold_scan(s, a + 1).1 == fold_scan(s, a).1.push((c, fold_scan(s, a + 1).2)));
            assert(fold_scan(s, m + 1).1 == fold_scan(s, m).1.drop_last());
            assert(fold_scan(s, a).1.push((c, fold_scan(s, a + 1).2)).drop_last() == fold_scan(s, a).1);
        } else if is_close_bracket(c) {
            assert(a <= pair(a) < a);
        } else {
            assert(nested_by(s, pair, a + 1, b)) by {
                assert forall|k: int| a + 1 <= k < b && is_close_bracket(s[k]) implies a + 1 <= #[trigger] pair(k) by {
                    if pair(k) == a {
                        assert(is_open_bracket(s[a]));
                    }
                }
            }
            lemma_nested_stretch(s, pair, a + 1, b);
        }
    }
}

/// Every pair of brackets of one kind on different lines between which
/// the brackets of all kinds nest properly is a fold: it runs from the
/// opener's line to the closer's line, whatever surrounds the pair and
/// however deep it lies.
pub proof fn law_fold_for_each_nested_pair(text: Seq<char>, i: int, j: int, pair: spec_fn(int) -> int)
    requires
        count_newlines(text) <= i32::MAX,
        0 <= i < j < text.len(),
        brackets_pair(text[i], text[j]),
        nested_by(text, pair, i + 1, j),
        line_at(text, i) < line_at(text, j),
    ensures
        exists|k: int|
            0 <= k < fold_ranges(text).len() && (#[trigger] fold_ranges(text)[k]).start_line == line_at(
                text,
                i,
            ) && fold_ranges(text)[k].end_line == line_at(text, j),
{
    let n = text.len() as int;
    lemma_fold_scan_bounds(text, i + 1);
    lemma_fold_scan_bounds(text, j + 1);
    lemma_count_newlines_prefix(text, j + 1, n);
    assert(text.take(n) == text);
    lemma_nested_stretch(text, pair, i + 1, j);
    let li = fold_scan(text, i + 1).2;
    let lj = fold_scan(text, j + 1).2;
    assert(fold_scan(text, i + 1).1.last() == (text[i], li));
    assert(fold_scan(text, j).1.last() == (text[i], li));
    let k0 = fold_scan(text, j).0.len() as int;
    assert(fold_scan(text, j + 1).0 == fold_scan(text, j).0.push(
        RustFoldRange { start_line: li as i32, end_line: lj as i32 },
    ));
    lemma_fold_scan_grows(text, j + 1, n);
    assert(fold_ranges(text)[k0] == fold_scan(text, j + 1).0[k0]);
}

/// The foldable regions of the buffer: one for each pair of matching
/// brackets that lie on different lines, lines counted by LF characters.
pub fn folds_compute_all(rope: &RopeBridge) -> (folds: Vec<RustFoldRange>)
    requires
        count_newlines(rope.text()) <= i32::MAX,
    ensures
        folds@ == fold_ranges(rope.text()),
        forall|k: int|
            0 <= k < folds@.len() ==> 0 <= (#[trigger] folds@[k]).start_line < folds@[k].end_line
                <= count_newlines(rope.text()),
{
    let mut folds: Vec<RustFoldRange> = Vec::new();
    let mut stack: Vec<(char, i32)> = Vec::new();
    let mut line_idx: i32 = 0;
    let text = rope_to_string(rope.rope());
    let ghost s = text@;
    for ch in it: text.chars()
        invariant
            it.seq() == s,
            s == rope.text(),
            count_newlines(s) <= i32::MAX,
            it.index() <= s.len(),
            ({
                let (f, st, l) = fold_scan(s, it.index() as int);
                &&& folds@ == f
                &&& stack@.len() == st.len()
                &&& forall|k: int|
                    0 <= k < st.len() ==> (#[trigger] stack@[k]).0 == st[k].0 && stack@[k].1
                        == st[k].1
                &&& line_idx == l
            }),
    {
        let ghost i = it.index() as int;
        proof {
            lemma_fold_scan_bounds(s, i + 1);
            lemma_count_newlines_prefix(s, i + 1, s.len() as int);
            assert(s.take(s.len() as int) == s);
            lemma_fold_scan_bounds(s, i);
        }
        if ch == '\n' {
            line_idx += 1;
        }
        if ch == '{' || ch == '[' || ch == '(' {
            stack.push((ch, line_idx));
        } else if ch == '}' || ch == ']' || ch == ')' {
            let ghost before = stack@;
            if let Some((open_ch, start_line)) = stack.pop() {
                let ghost st = fold_scan(s, i).1;
                assert(st.last() == st[st.len() - 1]);
                assert forall|k: int| 0 <= k < stack@.len() implies (#[trigger] stack@[k]).0
                    == st.drop_last()[k].0 && stack@[k].1 == st.drop_last()[k].1 by {
                    assert(stack@[k] == before[k]);
                }
                let matches = (open_ch == '{' && ch == '}') || (open_ch == '[' && ch == ']') || (
                open_ch == '(' && ch == ')');
                if matches && start_line < line_idx {
                    folds.push(RustFoldRange { start_line, end_line: line_idx });
                }
            }
        }
    }
    proof {
        lemma_fold_scan_bounds(s, s.len() as int);
        assert(s.take(s.len() as int) == s);
    }
    folds
}

/// Scanning forward from `idx` with `depth` unmatched `open` brackets: the
/// position of the `close` that brings the depth to zero, if any.
pub open spec fn search_forward(text: Seq<char>, open: char, close: char, idx: int, depth: int) -> Option<int>
    decreases text.len() - idx,
{
    if idx < 0 || idx >= text.len() {
        None
    } else if text[idx] == open {
        search_forward(text, open, close, idx + 1, depth + 1)
    } else if text[idx] == close {
        if depth - 1 == 0 {
            Some(idx)
        } else {
            search_forward(text, open, close, idx + 1, depth - 1)
        }
    } else {
        search_forward(text, open, close, idx + 1, depth)
    }
}

/// Scanning backward from just before `idx` with `depth` unmatched `open`
/// brackets: the position of the `close` that brings the depth to zero.
pub open spec fn search_backward(text: Seq<char>, open: char, close: char, idx: int, depth: int) -> Option<int>
    decreases idx,
{
    if idx <= 0 || idx > text.len() {
        None
    } else if text[idx - 1] == open {
        search_backward(text, open, close, idx - 1, depth + 1)
    } else if text[idx - 1] == close {
        if depth - 1 == 0 {
            Some(idx - 1)
        } else {
            search_backward(text, open, close, idx - 1, depth - 1)
        }
    } else {
        search_backward(text, open, close, idx - 1, depth)
    }
}

/// The bracket that answers `c` and whether it lies forward.
pub open spec fn bracket_partner(c: char) -> Option<(char, bool)> {
    if c == '{' {
        Some(('}', true))
    } else if c == '[' {
        Some((']', true))
    } else if c == '(' {
        Some((')', true))
    } else if c == '}' {
        Some(('{', false))
    } else if c == ']' {
        Some(('[', false))
    } else if c == ')' {
        Some(('(', false))
    } else {
        None
    }
}

/// The position of the bracket that matches the one at `target`, counting
/// nested brackets of the same kind; none when `target` is past the end,
/// holds no bracket, or the bracket is unmatched.
pub open spec fn matching_bracket(text: Seq<char>, target: int) -> Option<int> {
    if target < 0 || target >= text.len() {
        None
    } else {
        match bracket_partner(text[target]) {
            None => None,
            Some((m, forward)) => if forward {
                search_forward(text, text[target], m, target + 1, 1)
            } else {
                search_backward(text, text[target], m, target, 1)
            },
        }
    }
}

proof fn lemma_search_forward_found(text: Seq<char>, open: char, close: char, idx: int, depth: int)
    ensures
        search_forward(text, open, close, idx, depth) matches Some(p) ==> idx <= p < text.len(),
    decreases text.len() - idx,
{
    if 0 <= idx < text.len() {
        lemma_search_forward_found(text, open, close, idx + 1, depth + 1);
        lemma_search_forward_found(text, open, close, idx + 1, depth - 1);
        lemma_search_forward_found(text, open, close, idx + 1, depth);
    }
}

proof fn lemma_search_backward_found(text: Seq<char>, open: char, close: char, idx: int, depth: int)
    ensures
        search_backward(text, open, close, idx, depth) matches Some(p) ==> 0 <= p < idx,
    decreases idx,
{
    if 0 < idx <= text.len() {
        lemma_search_backward_found(text, open, close, idx - 1, depth + 1);
        lemma_search_backward_found(text, open, close, idx - 1, depth - 1);
        lemma_search_backward_found(text, open, close, idx - 1, depth);
    }
}

/// The matching bracket always lies inside the text.
pub proof fn lemma_matching_bracket_in_text(text: Seq<char>, target: int)
    ensures
        matching_bracket(text, target) matches Some(p) ==> 0 <= p < text.len() && p != target,
{
    if 0 <= target < text.len() {
        match bracket_partner(text[target]) {
            None => {},
            Some((m, forward)) => {
                lemma_search_forward_found(text, text[target], m, target + 1, 1);
                lemma_search_backward_found(text, text[target], m, target, 1);
            },
        }
    }
}

/// The position of the bracket that matches the one at `target_offset`.
pub(crate) fn find_matching_bracket_in_rope(rope: &Rope, target_offset: usize) -> (r: Option<usize>)
    ensures
        rope_text(*rope).len() <= usize::MAX,
        r == (match matching_bracket(rope_text(*rope), target_offset as int) {
            Some(p) => Some(p as usize),
            None => None::<usize>,
        }),
{
    let ghost text = rope_text(*rope);
    let len = rope_len_chars(rope);
    if target_offset >= len {
        return None;
    }
    let start_ch = rope_char(rope, target_offset);
    let (matcher, search_forward_dir) = if start_ch == '{' {
        ('}', true)
    } else if start_ch == '[' {
        (']', true)
    } else if start_ch == '(' {
        (')', true)
    } else if start_ch == '}' {
        ('{', false)
    } else if start_ch == ']' {
        ('[', false)
    } else if start_ch == ')' {
        ('(', false)
    } else {
        return None;
    };
    let mut depth: usize = 1;
    assert(bracket_partner(start_ch) == Some((matcher, search_forward_dir)));
    assert(matching_bracket(text, target_offset as int) == if search_forward_dir {
        search_forward(text, start_ch, matcher, target_offset + 1, 1)
    } else {
        search_backward(text, start_ch, matcher, target_offset as int, 1)
    });
    if search_forward_dir {
        let mut idx = target_offset + 1;
        while idx < len
            invariant
                text == rope_text(*rope),
                len == text.len(),
                target_offset < idx <= len,
                matching_bracket(text, target_offset as int) == search_forward(
                    text,
                    start_ch,
                    matcher,
                    target_offset + 1,
                    1,
                ),
                1 <= depth <= idx - target_offset,
                search_forward(text, start_ch, matcher, target_offset + 1, 1) == search_forward(
                    text,
                    start_ch,
                    matcher,
                    idx as int,
                    depth as int,
                ),
            decreases len - idx,
        {
            let ch = rope_char(rope, idx);
            if ch == start_ch {
                depth += 1;
            } else if ch == matcher {
                depth -= 1;
                if depth == 0 {
                    return Some(idx);
                }
            }
            idx += 1;
        }
    } else {
        if target_offset == 0 {
            return None;
        }
        let mut idx = target_offset;
        while idx > 0
            invariant
                text == rope_text(*rope),
                len == text.len(),
                idx <= target_offset < len,
                matching_bracket(text, target_offset as int) == search_backward(
                    text,
                    start_ch,
                    matcher,
                    target_offset as int,
                    1,
                ),
                1 <= depth <= target_offset - idx + 1,
                search_backward(text, start_ch, matcher, target_offset as int, 1) == search_backward(
                    text,
                    start_ch,
                    matcher,
                    idx as int,
                    depth as int,
                ),
            decreases idx,
        {
            let ghost prev_idx = idx as int;
            let ghost prev_depth = depth as int;
            idx -= 1;
            let ch = rope_char(rope, idx);
            assert(ch == text[prev_idx - 1]);
            if ch == start_ch {
                depth += 1;
            } else if ch == matcher {
                depth -= 1;
                if depth == 0 {
                    assert(search_backward(text, start_ch, matcher, prev_idx, prev_depth) == Some(
                        prev_idx - 1,
                    ));
                    return Some(idx);
                }
            }
        }
    }
    None
}

/// The answer to a request for the bracket that matches the one at
/// `target`: its position, or -1 when there is none (a negative target
/// included).
pub open spec fn matching_bracket_answer(text: Seq<char>, target: i32) -> i64 {
    if target < 0 {
        -1i64
    } else {
        match matching_bracket(text, target as int) {
            Some(p) => p as i64,
            None => -1i64,
        }
    }
}

/// The position of the bracket that matches the one at `target_offset`,
/// or -1 when there is none (a negative offset included).
pub fn folds_find_matching_bracket(rope: &RopeBridge, target_offset: i32) -> (r: i64)
    ensures
        r == matching_bracket_answer(rope.text(), target_offset),
{
    if target_offset < 0 {
        return -1;
    }
    proof {
        lemma_matching_bracket_in_text(rope.text(), target_offset as int);
    }
    match find_matching_bracket_in_rope(rope.rope(), target_offset as usize) {
        Some(idx) => idx as i64,
        None => -1,
    }
}

} // verus!
