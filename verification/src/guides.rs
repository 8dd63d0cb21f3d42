//! Indentation guides: the blocks that a line opens with a bracket, a
//! colon or a markup tag, and how far each reaches.

use crate::chars::{chars_to_string, contains_seq, trim, trim_bounds, trim_end, trim_end_len};
use crate::editor::{
    find_matching_bracket_in_rope, is_open_bracket, lemma_matching_bracket_in_text,
    matching_bracket, GuideBlock,
};
use crate::lines::{
    lemma_line_start_monotonic, lemma_line_start_of_line_of, line_count, line_of, line_start,
    line_text, stripped_line,
};
use crate::markup::{
    closes_tag, contains_same_tag_closing, contains_same_tag_opening, extract_opening_tag_name,
    opening_tag_name, opens_tag,
};
use crate::rope::{min, stripped_line_chars, RopeBridge};
use crate::text_rope::{
    rope_char_to_line, rope_len_chars, rope_len_lines, rope_line_to_char, rope_text,
};
use ropey::Rope;
use vstd::prelude::*;

verus! {

/// Scanning the lines from `l` on with `depth` unclosed `tag` tags: the
/// line whose closing tag brings the depth to zero.  Blank lines are
/// skipped; on a line that both opens and closes the tag, the opening is
/// counted first.
pub open spec fn closing_tag_search(text: Seq<char>, tag: Seq<char>, l: int, depth: int) -> Option<int>
    decreases line_count(text) - l,
{
    if l < 0 || l >= line_count(text) {
        None
    } else {
        let t = trim(stripped_line(text, l));
        if t.len() == 0 {
            closing_tag_search(text, tag, l + 1, depth)
        } else {
            let d1 = if opens_tag(t, tag) {
                depth + 1
            } else {
                depth
            };
            if closes_tag(t, tag) {
                let d2 = if d1 > 0 {
                    d1 - 1
                } else {
                    0
                };
                if d2 == 0 {
                    Some(l)
                } else {
                    closing_tag_search(text, tag, l + 1, d2)
                }
            } else {
                closing_tag_search(text, tag, l + 1, d1)
            }
        }
    }
}

/// The line that closes the `tag` opened on `start_line`, if any.
pub open spec fn matching_closing_tag_line(text: Seq<char>, start_line: int, tag: Seq<char>) -> Option<int> {
    closing_tag_search(text, tag, start_line + 1, 1)
}

proof fn lemma_closing_tag_search_found(text: Seq<char>, tag: Seq<char>, l: int, depth: int)
    ensures
        closing_tag_search(text, tag, l, depth) matches Some(p) ==> l <= p < line_count(text),
    decreases line_count(text) - l,
{
    if 0 <= l < line_count(text) {
        lemma_closing_tag_search_found(text, tag, l + 1, depth);
        lemma_closing_tag_search_found(text, tag, l + 1, depth + 1);
        lemma_closing_tag_search_found(text, tag, l + 1, depth - 1);
    }
}

/// The trimmed line `line_idx` as a string.
fn trimmed_line_string(rope: &Rope, line_idx: usize) -> (s: String)
    requires
        line_idx < line_count(rope_text(*rope)),
    ensures
        s@ == trim(stripped_line(rope_text(*rope), line_idx as int)),
{
    let cs = stripped_line_chars(rope, line_idx);
    let (a, b) = trim_bounds(cs.as_slice());
    chars_to_string(cs.as_slice(), a, b)
}

/// The line, after `start_line`, that closes the `tag_name` tag opened on
/// `start_line`, counting nested tags of the same name.
fn find_matching_closing_tag_line(rope: &Rope, start_line: usize, tag_name: &str) -> (r: Option<usize>)
    requires
        start_line < line_count(rope_text(*rope)),
    ensures
        r == (match matching_closing_tag_line(rope_text(*rope), start_line as int, tag_name@) {
            Some(p) => Some(p as usize),
            None => None::<usize>,
        }),
{
    let ghost text = rope_text(*rope);
    let mut depth: usize = 1;
    let total_lines = rope_len_lines(rope);
    let mut line_idx = start_line + 1;
    while line_idx < total_lines
        invariant
            text == rope_text(*rope),
            total_lines == line_count(text),
            start_line < line_idx <= total_lines,
            1 <= depth <= line_idx - start_line,
            matching_closing_tag_line(text, start_line as int, tag_name@) == closing_tag_search(
                text,
                tag_name@,
                line_idx as int,
                depth as int,
            ),
        decreases total_lines - line_idx,
    {
        let trimmed = trimmed_line_string(rope, line_idx);
        if trimmed.as_str().is_empty() {
            line_idx += 1;
            continue;
        }
        if contains_same_tag_opening(trimmed.as_str(), tag_name) {
            depth += 1;
        }
        if contains_same_tag_closing(trimmed.as_str(), tag_name) {
            depth = depth.saturating_sub(1);
            if depth == 0 {
                return Some(line_idx);
            }
        }
        line_idx += 1;
    }
    None
}

/// The number of columns of the leading spaces and tabs of `s`, a tab
/// counting `tab` columns.
pub open spec fn leading_width(s: Seq<char>, tab: int) -> int
    decreases s.len(),
{
    if s.len() > 0 && s[0] == ' ' {
        1 + leading_width(s.drop_first(), tab)
    } else if s.len() > 0 && s[0] == '\t' {
        tab + leading_width(s.drop_first(), tab)
    } else {
        0
    }
}

/// Line `l` holds nothing but white space.
pub open spec fn is_blank_line(text: Seq<char>, l: int) -> bool {
    trim(stripped_line(text, l)).len() == 0
}

/// Scanning the lines from `scan` on, blank lines skipped, for as long as
/// they are indented deeper than `leading`: the last such line
/// (`last_valid` if there is none).
pub open spec fn indent_scan(text: Seq<char>, tab: int, leading: int, scan: int, last_valid: int) -> int
    decreases line_count(text) - scan,
{
    if scan < 0 || scan >= line_count(text) {
        last_valid
    } else if is_blank_line(text, scan) {
        indent_scan(text, tab, leading, scan + 1, last_valid)
    } else if leading_width(stripped_line(text, scan), tab) <= leading {
        last_valid
    } else {
        indent_scan(text, tab, leading, scan + 1, scan)
    }
}

/// Some non-blank line in `from..to` is indented no deeper than `leading`.
pub open spec fn has_shallow_line(text: Seq<char>, tab: int, leading: int, from: int, to: int) -> bool {
    exists|c: int|
        from <= c < to && !is_blank_line(text, c) && #[trigger] leading_width(
            stripped_line(text, c),
            tab,
        ) <= leading
}

/// The line after the block that line `l` opens with its last bracket or
/// tag: the line after the matching bracket or closing tag when there is
/// one below, otherwise the line after the deeper-indented lines that
/// follow.
pub open spec fn guide_end(text: Seq<char>, l: int, tab: int) -> int {
    let tr = trim_end(stripped_line(text, l));
    let leading = leading_width(tr, tab);
    let end1 = block_end_by_partner(text, l);
    if end1 <= l + 1 {
        indent_scan(text, tab, leading, l + 1, l) + 1
    } else {
        end1
    }
}

/// The line after the bracket or closing tag that answers the last
/// bracket or the tag of line `l`; `l + 1` when there is none.
pub open spec fn block_end_by_partner(text: Seq<char>, l: int) -> int {
    let tr = trim_end(stripped_line(text, l));
    if is_open_bracket(tr.last()) {
        match matching_bracket(text, line_start(text, l) + tr.len() - 1) {
            Some(mp) => line_of(text, mp) + 1int,
            None => l + 1,
        }
    } else {
        match opening_tag_name(tr) {
            Some(t) => match matching_closing_tag_line(text, l, t) {
                Some(ml) => ml + 1,
                None => l + 1,
            },
            None => l + 1,
        }
    }
}

/// The guide that line `l` starts, if any: the line, without trailing
/// white space, is not empty and ends with `{`, `(`, `[` or `:` or opens a
/// tag; its block reaches past the next line; and no non-blank line inside
/// the block is indented as little as it.
pub open spec fn guide_at(text: Seq<char>, l: int, tab: int) -> Option<GuideBlock> {
    let tr = trim_end(stripped_line(text, l));
    if tr.len() == 0 {
        None
    } else {
        let last_char = tr.last();
        let ends_with_bracket = last_char == '{' || last_char == '(' || last_char == '['
            || last_char == ':';
        if !ends_with_bracket && opening_tag_name(tr) is None {
            None
        } else {
            let leading = leading_width(tr, tab);
            let indent = if tab > 0 {
                leading / tab
            } else {
                0
            };
            let end = guide_end(text, l, tab);
            if end <= l + 1 {
                None
            } else if has_shallow_line(text, tab, leading, l + 1, end - 1) {
                None
            } else {
                Some(
                    GuideBlock {
                        start_line: l as i32,
                        end_line: end as i32,
                        indent_level: indent as i32,
                        leading_spaces: leading as i32,
                    },
                )
            }
        }
    }
}

/// The guides that the lines `from..to` start, in order.
pub open spec fn guides_upto(text: Seq<char>, tab: int, from: int, to: int) -> Seq<GuideBlock>
    decreases to - from,
{
    if to <= from {
        Seq::empty()
    } else {
        let pre = guides_upto(text, tab, from, to - 1);
        match guide_at(text, to - 1, tab) {
            Some(g) => pre.push(g),
            None => pre,
        }
    }
}

/// How far above the first visible line the guides are looked for.
pub const GUIDE_SCAN_BACK_LIMIT: usize = 500;

/// The guides for a viewport: those started by the lines from 500 lines
/// above the first visible line through the last visible line, both
/// clamped to the last line.
pub open spec fn viewport_guides(text: Seq<char>, first_visible: int, last_visible: int, tab: int) -> Seq<GuideBlock> {
    let total = line_count(text) as int;
    let first = min(first_visible, total - 1);
    let last = min(last_visible, total - 1);
    let scan_start = if first > GUIDE_SCAN_BACK_LIMIT {
        first - GUIDE_SCAN_BACK_LIMIT
    } else {
        0
    };
    guides_upto(text, tab, scan_start, last + 1)
}

proof fn lemma_leading_width_bound(s: Seq<char>, tab: int)
    requires
        tab >= 0,
    ensures
        0 <= leading_width(s, tab) <= s.len() * (tab + 1),
    decreases s.len(),
{
    if s.len() > 0 && (s[0] == ' ' || s[0] == '\t') {
        lemma_leading_width_bound(s.drop_first(), tab);
        assert(s.len() * (tab + 1) == s.drop_first().len() * (tab + 1) + (tab + 1)) by (nonlinear_arith)
            requires
                s.len() == s.drop_first().len() + 1,
        ;
    }
}

/// The leading columns of `cs[..n]`, a tab counting `tab` columns.  They
/// are counted in `u128`, which no line of any tab width can overflow.
fn leading_columns(cs: &[char], n: usize, tab: usize) -> (w: u128)
    requires
        n <= cs@.len(),
    ensures
        w == leading_width(cs@.take(n as int), tab as int),
{
    let mut w: u128 = 0;
    let mut i: usize = 0;
    proof {
        lemma_leading_width_bound(cs@.take(n as int), tab as int);
        assert(n * (tab + 1) <= usize::MAX * (usize::MAX + 1)) by (nonlinear_arith)
            requires
                n <= usize::MAX,
                tab <= usize::MAX,
        ;
    }
    assert(cs@.take(n as int).skip(0) == cs@.take(n as int));
    while i < n && (cs[i] == ' ' || cs[i] == '\t')
        invariant
            i <= n <= cs@.len(),
            0 <= w,
            w + leading_width(cs@.take(n as int).skip(i as int), tab as int) == leading_width(
                cs@.take(n as int),
                tab as int,
            ),
            leading_width(cs@.take(n as int), tab as int) <= usize::MAX * (usize::MAX + 1),
        decreases n - i,
    {
        assert(cs@.take(n as int).skip(i as int).drop_first() == cs@.take(n as int).skip(i as int + 1));
        assert(cs@.take(n as int).skip(i as int)[0] == cs[i as int]);
        proof {
            lemma_leading_width_bound(cs@.take(n as int).skip(i as int + 1), tab as int);
        }
        if cs[i] == ' ' {
            w = w + 1;
        } else {
            w = w + tab as u128;
        }
        i += 1;
    }
    proof {
        if i < n {
            assert(cs@.take(n as int).skip(i as int)[0] == cs[i as int]);
        }
    }
    assert(cs@.take(n as int).skip(0) == cs@.take(n as int));
    w
}

/// `cs` holds nothing but white space.
fn line_is_blank(cs: &[char]) -> (r: bool)
    ensures
        r == (trim(cs@).len() == 0),
{
    let (a, b) = trim_bounds(cs);
    a == b
}

/// The last line after `line_idx`, blank lines skipped, that is indented
/// deeper than `leading` with no shallower line before it (`line_idx` if
/// there is none).
fn indentation_block_end(rope: &Rope, total_lines: usize, line_idx: usize, leading: u128, tab: usize) -> (r: usize)
    requires
        total_lines == line_count(rope_text(*rope)),
        line_idx < total_lines,
    ensures
        r == indent_scan(rope_text(*rope), tab as int, leading as int, line_idx + 1, line_idx as int),
        line_idx <= r < line_count(rope_text(*rope)),
{
    let ghost text = rope_text(*rope);
    let mut scan = line_idx + 1;
    let mut last_valid = line_idx;
    while scan < total_lines
        invariant
            text == rope_text(*rope),
            total_lines == line_count(text),
            line_idx < scan <= total_lines,
            line_idx <= last_valid < scan,
            indent_scan(text, tab as int, leading as int, line_idx + 1, line_idx as int)
                == indent_scan(text, tab as int, leading as int, scan as int, last_valid as int),
        ensures
            line_idx <= last_valid < total_lines,
            indent_scan(text, tab as int, leading as int, line_idx + 1, line_idx as int)
                == last_valid,
        decreases total_lines - scan,
    {
        let nl = stripped_line_chars(rope, scan);
        if line_is_blank(nl.as_slice()) {
            scan += 1;
            continue;
        }
        assert(nl@.take(nl@.len() as int) == nl@);
        let next_leading = leading_columns(nl.as_slice(), nl.len(), tab);
        if next_leading <= leading {
            break;
        }
        last_valid = scan;
        scan += 1;
    }
    last_valid
}

/// Whether some non-blank line in `from..to` is indented no deeper than
/// `leading`.
fn has_shallow_line_in(rope: &Rope, from: usize, to: usize, leading: u128, tab: usize) -> (r: bool)
    requires
        to <= line_count(rope_text(*rope)),
    ensures
        r == has_shallow_line(rope_text(*rope), tab as int, leading as int, from as int, to as int),
{
    let ghost text = rope_text(*rope);
    let mut check = from;
    while check < to
        invariant
            text == rope_text(*rope),
            to <= line_count(text),
            from <= check,
            forall|c: int|
                from <= c < check ==> is_blank_line(text, c) || #[trigger] leading_width(
                    stripped_line(text, c),
                    tab as int,
                ) > leading,
        decreases to - check,
    {
        let cl = stripped_line_chars(rope, check);
        if line_is_blank(cl.as_slice()) {
            check += 1;
            continue;
        }
        assert(cl@.take(cl@.len() as int) == cl@);
        let check_leading = leading_columns(cl.as_slice(), cl.len(), tab);
        if check_leading <= leading {
            assert(!is_blank_line(text, check as int));
            assert(leading_width(stripped_line(text, check as int), tab as int) <= leading);
            return true;
        }
        check += 1;
    }
    false
}

/// The guide that line `line_idx` starts, if any.
fn guide_for_line(rope: &Rope, len_chars: usize, total_lines: usize, line_idx: usize, tab_size: usize) -> (g: Option<GuideBlock>)
    requires
        len_chars == rope_text(*rope).len(),
        total_lines == line_count(rope_text(*rope)),
        line_idx < total_lines,
    ensures
        g == guide_at(rope_text(*rope), line_idx as int, tab_size as int),
{
    let ghost text = rope_text(*rope);
    let line_chars = stripped_line_chars(rope, line_idx);
    let trimmed_len = trim_end_len(line_chars.as_slice());
    let ghost tr = line_chars@.take(trimmed_len as int);
    if trimmed_len == 0 {
        return None;
    }
    let last_char = line_chars[trimmed_len - 1];
    assert(tr.last() == last_char);
    let trimmed_right = chars_to_string(line_chars.as_slice(), 0, trimmed_len);
    assert(line_chars@.subrange(0, trimmed_len as int) == tr);
    let opening_tag_name = extract_opening_tag_name(trimmed_right.as_str());
    let ends_with_bracket = last_char == '{' || last_char == '(' || last_char == '[' || last_char
        == ':';
    if !ends_with_bracket && opening_tag_name.is_none() {
        return None;
    }
    let leading_cols = leading_columns(line_chars.as_slice(), trimmed_len, tab_size);
    let indent_level = if tab_size > 0 {
        leading_cols / tab_size as u128
    } else {
        0
    };
    let mut end_line: usize = line_idx + 1;
    assert(trimmed_right@ == tr);
    if last_char == '{' || last_char == '(' || last_char == '[' {
        let line_start_char = rope_line_to_char(rope, line_idx);
        proof {
            lemma_line_start_monotonic(text, line_idx as int, line_idx as int + 1);
            assert(tr.len() <= line_text(text, line_idx as int).len());
        }
        let bracket_pos = line_start_char + trimmed_len - 1;
        if let Some(match_pos) = find_matching_bracket_in_rope(rope, bracket_pos) {
            proof {
                lemma_matching_bracket_in_text(text, bracket_pos as int);
                lemma_line_start_of_line_of(text, match_pos as int);
            }
            let matched_line = rope_char_to_line(rope, match_pos);
            end_line = matched_line + 1;
            assert(matching_bracket(text, line_start(text, line_idx as int) + tr.len() - 1) == Some(
                match_pos as int,
            ));
        } else {
            assert(matching_bracket(text, line_start(text, line_idx as int) + tr.len() - 1) is None);
        }
    } else if let Some(tag_name) = opening_tag_name {
        if let Some(match_line) = find_matching_closing_tag_line(rope, line_idx, tag_name.as_str()) {
            proof {
                lemma_closing_tag_search_found(text, tag_name@, line_idx + 1, 1);
            }
            end_line = match_line + 1;
        }
    } else {
        assert(crate::markup::opening_tag_name(tr) is None);
    }
    assert(end_line == block_end_by_partner(text, line_idx as int));
    if end_line <= line_idx + 1 {
        let last_valid = indentation_block_end(rope, total_lines, line_idx, leading_cols, tab_size);
        end_line = last_valid + 1;
    }
    assert(end_line == guide_end(text, line_idx as int, tab_size as int));
    if end_line <= line_idx + 1 {
        return None;
    }
    let would_pass = has_shallow_line_in(rope, line_idx + 1, end_line.saturating_sub(1), leading_cols, tab_size);
    if would_pass {
        return None;
    }
    Some(
        GuideBlock {
            start_line: line_idx as i32,
            end_line: end_line as i32,
            indent_level: indent_level as i32,
            leading_spaces: leading_cols as i32,
        },
    )
}

/// The indentation guides for the viewport `first_visible..=last_visible`,
/// looking for block starts up to 500 lines above it.
pub fn guides_compute_viewport(
    rope: &RopeBridge,
    first_visible: usize,
    last_visible: usize,
    tab_size: usize,
) -> (blocks: Vec<GuideBlock>)
    ensures
        blocks@ == viewport_guides(rope.text(), first_visible as int, last_visible as int, tab_size as int),
{
    let scan_back_limit: usize = GUIDE_SCAN_BACK_LIMIT;
    let rope_lock = rope.rope();
    let ghost text = rope.text();
    let total_lines = rope_len_lines(rope_lock);
    let len_chars = rope_len_chars(rope_lock);
    if total_lines == 0 {
        return Vec::new();
    }
    let first = first_visible.min(total_lines.saturating_sub(1));
    let last = last_visible.min(total_lines.saturating_sub(1));
    let scan_start = if first > scan_back_limit {
        first - scan_back_limit
    } else {
        0
    };
    let mut blocks: Vec<GuideBlock> = Vec::new();
    let mut line_idx = scan_start;
    while line_idx <= last
        invariant
            text == rope_text(*rope_lock),
            total_lines == line_count(text),
            len_chars == text.len(),
            last < total_lines,
            scan_start <= line_idx,
            line_idx <= last + 1 || line_idx == scan_start,
            blocks@ == guides_upto(text, tab_size as int, scan_start as int, line_idx as int),
        decreases last + 1 - line_idx,
    {
        if let Some(g) = guide_for_line(rope_lock, len_chars, total_lines, line_idx, tab_size) {
            blocks.push(g);
        }
        line_idx += 1;
    }
    blocks
}

proof fn lemma_indent_scan_bounds(text: Seq<char>, tab: int, leading: int, scan: int, last_valid: int)
    requires
        0 <= last_valid < line_count(text),
        last_valid < scan,
    ensures
        last_valid <= indent_scan(text, tab, leading, scan, last_valid) < line_count(text),
    decreases line_count(text) - scan,
{
    if 0 <= scan < line_count(text) {
        lemma_indent_scan_bounds(text, tab, leading, scan + 1, last_valid);
        lemma_indent_scan_bounds(text, tab, leading, scan + 1, scan);
    }
}

/// Each guide block starts on a scanned line, spans at least two lines
/// and ends within the text; the blocks come in increasing order of their
/// start lines.
pub proof fn law_guides_shape(text: Seq<char>, first_visible: usize, last_visible: usize, tab: usize)
    requires
        line_count(text) <= i32::MAX,
    ensures
        ({
            let gs = viewport_guides(text, first_visible as int, last_visible as int, tab as int);
            let last = min(last_visible as int, line_count(text) - 1);
            &&& forall|i: int|
                0 <= i < gs.len() ==> 0 <= (#[trigger] gs[i]).start_line <= last && gs[i].start_line
                    + 2 <= gs[i].end_line <= line_count(text)
            &&& forall|i: int, j: int|
                0 <= i < j < gs.len() ==> (#[trigger] gs[i]).start_line < (#[trigger] gs[j]).start_line
        }),
{
    let total = line_count(text) as int;
    let first = min(first_visible as int, total - 1);
    let last = min(last_visible as int, total - 1);
    let scan_start = if first > GUIDE_SCAN_BACK_LIMIT {
        first - GUIDE_SCAN_BACK_LIMIT
    } else {
        0
    };
    lemma_guides_upto_shape(text, tab as int, scan_start, last + 1);
}

proof fn lemma_guide_at_shape(text: Seq<char>, l: int, tab: int)
    requires
        0 <= l < line_count(text),
        line_count(text) <= i32::MAX,
        tab >= 0,
    ensures
        guide_at(text, l, tab) matches Some(g) ==> g.start_line == l && l + 2 <= g.end_line <= line_count(
            text,
        ),
{
    let tr = trim_end(stripped_line(text, l));
    if let Some(g) = guide_at(text, l, tab) {
        let leading = leading_width(tr, tab);
        let end1 = block_end_by_partner(text, l);
        if is_open_bracket(tr.last()) {
            let pos = line_start(text, l) + tr.len() - 1;
            lemma_matching_bracket_in_text(text, pos);
            if let Some(mp) = matching_bracket(text, pos) {
                lemma_line_start_of_line_of(text, mp);
            }
        } else if let Some(t) = opening_tag_name(tr) {
            lemma_closing_tag_search_found(text, t, l + 1, 1);
        }
        if end1 <= l + 1 {
            lemma_indent_scan_bounds(text, tab, leading, l + 1, l);
        }
    }
}

proof fn lemma_guides_upto_shape(text: Seq<char>, tab: int, from: int, to: int)
    requires
        0 <= from,
        to <= line_count(text),
        line_count(text) <= i32::MAX,
        tab >= 0,
    ensures
        ({
            let gs = guides_upto(text, tab, from, to);
            &&& forall|i: int|
                0 <= i < gs.len() ==> from <= (#[trigger] gs[i]).start_line < to && gs[i].start_line
                    + 2 <= gs[i].end_line <= line_count(text)
            &&& forall|i: int, j: int|
                0 <= i < j < gs.len() ==> (#[trigger] gs[i]).start_line < (#[trigger] gs[j]).start_line
        }),
    decreases to - from,
{
    if to > from {
        lemma_guides_upto_shape(text, tab, from, to - 1);
        lemma_guide_at_shape(text, to - 1, tab);
        let pre = guides_upto(text, tab, from, to - 1);
        if let Some(g) = guide_at(text, to - 1, tab) {
            let gs = pre.push(g);
            assert(guides_upto(text, tab, from, to) == gs);
            assert forall|i: int| 0 <= i < gs.len() implies from <= (#[trigger] gs[i]).start_line < to
                && gs[i].start_line + 2 <= gs[i].end_line <= line_count(text) by {
                if i < pre.len() {
                    assert(gs[i] == pre[i]);
                }
            }
            assert forall|i: int, j: int| 0 <= i < j < gs.len() implies (#[trigger] gs[i]).start_line
                < (#[trigger] gs[j]).start_line by {
                assert(gs[i] == pre[i]);
                if j < pre.len() {
                    assert(gs[j] == pre[j]);
                }
            }
        }
    }
}

/// Line `c` is not blank and is indented no deeper than `leading`.
pub open spec fn is_shallow_line(text: Seq<char>, tab: int, leading: int, c: int) -> bool {
    !is_blank_line(text, c) && leading_width(stripped_line(text, c), tab) <= leading
}

/// `stop` is the first line at or after `scan` that is shallow, or the
/// line count when there is none.
pub open spec fn first_shallow_from(text: Seq<char>, tab: int, leading: int, scan: int, stop: int) -> bool {
    &&& scan <= stop <= line_count(text)
    &&& stop < line_count(text) ==> is_shallow_line(text, tab, leading, stop)
    &&& forall|c: int| scan <= c < stop ==> !#[trigger] is_shallow_line(text, tab, leading, c)
}

/// What a scan for the end of an indented block finds, given where it
/// stops: `last_valid` when every line before the stop is blank, otherwise
/// the last non-blank line before the stop.
pub open spec fn indent_scan_reading(
    text: Seq<char>,
    scan: int,
    stop: int,
    last_valid: int,
    r: int,
) -> bool {
    ||| (forall|c: int| scan <= c < stop ==> #[trigger] is_blank_line(text, c)) && r == last_valid
    ||| {
        &&& scan <= r < stop
        &&& !is_blank_line(text, r)
        &&& forall|c: int| r < c < stop ==> #[trigger] is_blank_line(text, c)
    }
}

proof fn lemma_indent_scan(text: Seq<char>, tab: int, leading: int, scan: int, last_valid: int) -> (stop: int)
    requires
        0 <= scan <= line_count(text),
    ensures
        first_shallow_from(text, tab, leading, scan, stop),
        indent_scan_reading(
            text,
            scan,
            stop,
            last_valid,
            indent_scan(text, tab, leading, scan, last_valid),
        ),
    decreases line_count(text) - scan,
{
    let n = line_count(text) as int;
    if scan == n {
        n
    } else if is_blank_line(text, scan) {
        let stop = lemma_indent_scan(text, tab, leading, scan + 1, last_valid);
        assert(!is_shallow_line(text, tab, leading, scan));
        let r = indent_scan(text, tab, leading, scan, last_valid);
        if forall|c: int| scan + 1 <= c < stop ==> #[trigger] is_blank_line(text, c) {
            if r == last_valid {
                assert forall|c: int| scan <= c < stop implies #[trigger] is_blank_line(text, c) by {
                    if c > scan {
                        assert(is_blank_line(text, c));
                    }
                }
            }
        }
        stop
    } else if leading_width(stripped_line(text, scan), tab) <= leading {
        scan
    } else {
        let stop = lemma_indent_scan(text, tab, leading, scan + 1, scan);
        assert(!is_shallow_line(text, tab, leading, scan));
        stop
    }
}

/// Where an indented block ends, read directly: scanning from `scan`, the
/// scan stops at the first non-blank line indented no deeper than
/// `leading` (or the end of the text) and gives the last non-blank line
/// before it, or `last_valid` when there is none.
pub proof fn law_indent_scan_by_first_shallow_line(
    text: Seq<char>,
    tab: int,
    leading: int,
    scan: int,
    last_valid: int,
)
    requires
        0 <= scan <= line_count(text),
    ensures
        exists|stop: int|
            #[trigger] first_shallow_from(text, tab, leading, scan, stop) && indent_scan_reading(
                text,
                scan,
                stop,
                last_valid,
                indent_scan(text, tab, leading, scan, last_valid),
            ),
{
    let stop = lemma_indent_scan(text, tab, leading, scan, last_valid);
}

/// How line `l` changes the number of unclosed `tag` tags: up one when it
/// opens the tag, down one when it closes it, unchanged when it does both
/// or neither.
pub open spec fn tag_step(text: Seq<char>, tag: Seq<char>, l: int) -> int {
    let t = trim(stripped_line(text, l));
    (if opens_tag(t, tag) {
        1int
    } else {
        0int
    }) - (if closes_tag(t, tag) {
        1int
    } else {
        0int
    })
}

/// The change in the number of unclosed `tag` tags over the lines
/// `from..to`.
pub open spec fn tag_balance(text: Seq<char>, tag: Seq<char>, from: int, to: int) -> int
    decreases to - from,
{
    if to <= from {
        0
    } else {
        tag_balance(text, tag, from, to - 1) + tag_step(text, tag, to - 1)
    }
}

proof fn lemma_tag_balance_front(text: Seq<char>, tag: Seq<char>, l: int, m: int)
    requires
        l < m,
    ensures
        tag_balance(text, tag, l, m) == tag_step(text, tag, l) + tag_balance(text, tag, l + 1, m),
    decreases m - l,
{
    if m - 1 > l {
        lemma_tag_balance_front(text, tag, l, m - 1);
    } else {
        reveal_with_fuel(tag_balance, 2);
    }
}

proof fn lemma_blank_line_step(text: Seq<char>, tag: Seq<char>, l: int)
    requires
        trim(stripped_line(text, l)).len() == 0,
    ensures
        tag_step(text, tag, l) == 0,
{
    let t = trim(stripped_line(text, l));
    let p = seq!['<'] + tag;
    let q = seq!['<', '/'] + tag;
    if contains_seq(t, p) {
        let i = choose|i: int| 0 <= i && i + p.len() <= t.len() && #[trigger] t.subrange(i, i + p.len()) == p;
    }
    if contains_seq(t, q) {
        let i = choose|i: int| 0 <= i && i + q.len() <= t.len() && #[trigger] t.subrange(i, i + q.len()) == q;
    }
}

/// One line of the search: from `depth >= 1`, line `l` either brings the
/// count to zero and ends the search there, or the search goes on from the
/// next line with the count changed by the line's step.
proof fn lemma_closing_tag_step(text: Seq<char>, tag: Seq<char>, l: int, depth: int)
    requires
        0 <= l < line_count(text),
        depth >= 1,
    ensures
        depth + tag_step(text, tag, l) == 0 ==> closing_tag_search(text, tag, l, depth) == Some(l),
        depth + tag_step(text, tag, l) != 0 ==> closing_tag_search(text, tag, l, depth)
            == closing_tag_search(text, tag, l + 1, depth + tag_step(text, tag, l)),
{
    if trim(stripped_line(text, l)).len() == 0 {
        lemma_blank_line_step(text, tag, l);
    }
}

proof fn lemma_closing_tag_found(text: Seq<char>, tag: Seq<char>, l: int, depth: int, q: int)
    requires
        0 <= l,
        depth >= 1,
        closing_tag_search(text, tag, l, depth) == Some(q),
    ensures
        l <= q < line_count(text),
        depth + tag_balance(text, tag, l, q + 1) == 0,
        forall|m: int| l <= m <= q ==> depth + #[trigger] tag_balance(text, tag, l, m) >= 1,
    decreases line_count(text) - l,
{
    lemma_closing_tag_step(text, tag, l, depth);
    let st = tag_step(text, tag, l);
    lemma_tag_balance_front(text, tag, l, l + 1);
    if depth + st != 0 {
        lemma_closing_tag_found(text, tag, l + 1, depth + st, q);
        lemma_tag_balance_front(text, tag, l, q + 1);
        assert forall|m: int| l <= m <= q implies depth + #[trigger] tag_balance(text, tag, l, m) >= 1 by {
            if m > l {
                lemma_tag_balance_front(text, tag, l, m);
                assert(depth + st + tag_balance(text, tag, l + 1, m) >= 1);
            }
        }
    }
}

proof fn lemma_closing_tag_hits(text: Seq<char>, tag: Seq<char>, l: int, depth: int, q: int)
    requires
        0 <= l <= q < line_count(text),
        depth >= 1,
        forall|m: int| l <= m <= q ==> depth + #[trigger] tag_balance(text, tag, l, m) >= 1,
        depth + tag_balance(text, tag, l, q + 1) == 0,
    ensures
        closing_tag_search(text, tag, l, depth) == Some(q),
    decreases q - l,
{
    lemma_closing_tag_step(text, tag, l, depth);
    let st = tag_step(text, tag, l);
    lemma_tag_balance_front(text, tag, l, l + 1);
    if l < q {
        assert(depth + tag_balance(text, tag, l, l + 1) >= 1);
        assert forall|m: int| l + 1 <= m <= q implies depth + st + #[trigger] tag_balance(
            text,
            tag,
            l + 1,
            m,
        ) >= 1 by {
            lemma_tag_balance_front(text, tag, l, m);
            assert(depth + tag_balance(text, tag, l, m) >= 1);
        }
        lemma_tag_balance_front(text, tag, l, q + 1);
        lemma_closing_tag_hits(text, tag, l + 1, depth + st, q);
    }
}

/// `q` closes the `tag` opened on `start_line`: reading the lines after
/// it, `q` is the first line after which as many of them have closed the
/// tag as have opened it, plus the one opened on `start_line`.
pub open spec fn tag_closed_on(text: Seq<char>, tag: Seq<char>, start_line: int, q: int) -> bool {
    &&& start_line < q < line_count(text)
    &&& 1 + tag_balance(text, tag, start_line + 1, q + 1) == 0
    &&& forall|m: int|
        start_line + 1 <= m <= q ==> 1 + #[trigger] tag_balance(text, tag, start_line + 1, m) >= 1
}

/// The line that closes a tag, read directly: the first line below the
/// opening one at which the tags of that name opened and closed since
/// balance out.
pub proof fn law_matching_closing_tag_line_by_balance(
    text: Seq<char>,
    start_line: int,
    tag: Seq<char>,
    q: int,
)
    requires
        0 <= start_line,
    ensures
        matching_closing_tag_line(text, start_line, tag) == Some(q) <==> tag_closed_on(
            text,
            tag,
            start_line,
            q,
        ),
{
    if matching_closing_tag_line(text, start_line, tag) == Some(q) {
        lemma_closing_tag_found(text, tag, start_line + 1, 1, q);
    }
    if tag_closed_on(text, tag, start_line, q) {
        lemma_closing_tag_hits(text, tag, start_line + 1, 1, q);
    }
}

/// Line `l` opens a block: without its trailing white space it is not
/// empty and ends with `{`, `(`, `[` or `:`, or opens a markup tag.
pub open spec fn opens_block(text: Seq<char>, l: int) -> bool {
    let tr = trim_end(stripped_line(text, l));
    &&& tr.len() > 0
    &&& (tr.last() == '{' || tr.last() == '(' || tr.last() == '[' || tr.last() == ':'
        || opening_tag_name(tr) is Some)
}

/// A line that opens a block reaching past the next line starts a guide
/// exactly when every non-blank line strictly inside the block is indented
/// deeper than the opening line, by however little; the guide then runs
/// from that line to the block's end, at the opening line's indentation.
/// A line that opens no block, or a block that ends on the next line,
/// starts none.
pub proof fn law_guide_kept_iff_inner_lines_deeper(text: Seq<char>, l: int, tab: int)
    ensures
        ({
            let tr = trim_end(stripped_line(text, l));
            let leading = leading_width(tr, tab);
            let end = guide_end(text, l, tab);
            &&& !opens_block(text, l) ==> guide_at(text, l, tab) is None
            &&& opens_block(text, l) && end <= l + 1 ==> guide_at(text, l, tab) is None
            &&& opens_block(text, l) && end > l + 1 ==> (guide_at(text, l, tab) is Some <==> forall|c: int|
                l + 1 <= c < end - 1 && !is_blank_line(text, c) ==> leading < #[trigger] leading_width(
                    stripped_line(text, c),
                    tab,
                ))
            &&& guide_at(text, l, tab) matches Some(g) ==> g.start_line == l as i32 && g.end_line
                == end as i32 && g.leading_spaces == leading as i32
        }),
{
}

} // verus!
