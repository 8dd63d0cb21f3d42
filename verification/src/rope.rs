//! A text buffer held in a rope, with the current selection.

use crate::bidi::{
    bidi_segments_in_range, compute_bidi_segments, majority_direction, majority_direction_of,
    overall_direction, overall_direction_of,
};
use crate::chars::{chars_to_string, str_to_chars};
use crate::lines::{
    lemma_line_start_monotonic, lemma_line_start_of_line_of, line_count, line_of, line_start,
    line_text, newline_free_len, stripped_line,
};
use crate::text_rope::{
    inserted, removed, rope_char, rope_char_to_line, rope_clone, rope_from_str, rope_insert,
    rope_len_chars, rope_len_lines, rope_line_len_chars, rope_line_string, rope_line_to_char,
    rope_remove, rope_slice_string, rope_text, rope_to_string,
};
use ropey::Rope;
use vstd::prelude::*;

verus! {

/// The writing direction of a run of text.
#[derive(Clone, Copy, Debug, PartialEq, Eq, Structural)]
pub enum TextDirection {
    Ltr,
    Rtl,
    Mixed,
}

/// A run of text, `start..end` in characters, written in one direction.
#[derive(Clone, Copy, Debug)]
pub struct BiDiSegment {
    pub start: usize,
    pub end: usize,
    pub direction: TextDirection,
}

/// The two ends of a selection, in characters.
#[derive(Clone, Copy, Debug)]
pub struct SelectionState {
    pub base_offset: usize,
    pub extent_offset: usize,
}

/// A text held in a rope, together with the current selection.
pub struct RopeBridge {
    pub(crate) rope: Rope,
    selection: SelectionState,
}

pub open spec fn min(a: int, b: int) -> int {
    if a <= b {
        a
    } else {
        b
    }
}

/// Where an edit of `start..end` begins once clamped to a text of `len`
/// characters.
pub open spec fn edit_start(len: int, start: int) -> int {
    min(start, len)
}

/// Where an edit of `start..end` ends once clamped: not before its start
/// and not past the text.
pub open spec fn edit_end(len: int, start: int, end: int) -> int {
    let s = edit_start(len, start);
    if end < s {
        s
    } else {
        min(end, len)
    }
}

/// `text` with the clamped range `start..end` replaced by `rep`.
pub open spec fn replaced_text(text: Seq<char>, start: int, end: int, rep: Seq<char>) -> Seq<
    char,
> {
    let s = edit_start(text.len() as int, start);
    let e = edit_end(text.len() as int, start, end);
    text.take(s) + rep + text.skip(e)
}

/// The length in bytes of the UTF-8 encoding of `s`.
pub open spec fn utf8_len(s: Seq<char>) -> usize {
    vstd::utf8::encode_utf8(s).len() as usize
}

/// How far an edit moves the offsets after it: the replacement's length in
/// bytes less the number of characters removed.
pub open spec fn edit_delta(rep_bytes: usize, removed: usize) -> int {
    (rep_bytes as isize) - (removed as isize)
}

/// `x` held within `lo..=hi`.
pub open spec fn clamp(x: int, lo: int, hi: int) -> int {
    if x < lo {
        lo
    } else if x > hi {
        hi
    } else {
        x
    }
}

/// Where an offset lands after an edit of `s..e` that keeps the cursor:
/// offsets before the edit stay, offsets after it move by `delta`, and
/// offsets inside it are kept inside the replacement; all are clamped to
/// the new text.
pub open spec fn mapped_offset(
    o: usize,
    s: usize,
    e: usize,
    delta: int,
    rep_bytes: usize,
    new_len: usize,
) -> int {
    if o <= s {
        o as int
    } else if o >= e {
        clamp((o as isize) + delta, 0, new_len as int)
    } else {
        min(s + min(o - s, rep_bytes as int), new_len as int)
    }
}

/// Mapping `o` does not overflow a signed offset.
pub open spec fn mapped_offset_fits(o: usize, s: usize, e: usize, delta: int, new_len: usize) -> bool {
    ||| o <= s
    ||| o < e
    ||| (isize::MIN <= (o as isize) + delta <= isize::MAX && new_len <= isize::MAX)
}

/// The edit of `replace_range_and_update_selection` stays within the
/// machine's integers.
pub open spec fn replace_fits(
    text: Seq<char>,
    start: usize,
    end: usize,
    rep: Seq<char>,
    preserve_old_cursor: bool,
    old_base: usize,
    old_extent: usize,
) -> bool {
    let s = edit_start(text.len() as int, start as int) as usize;
    let e = edit_end(text.len() as int, start as int, end as int) as usize;
    let rb = utf8_len(rep);
    let new_len = replaced_text(text, start as int, end as int, rep).len() as usize;
    let delta = edit_delta(rb, (e - s) as usize);
    if preserve_old_cursor {
        &&& isize::MIN <= delta <= isize::MAX
        &&& mapped_offset_fits(old_base, s, e, delta, new_len)
        &&& mapped_offset_fits(old_extent, s, e, delta, new_len)
    } else {
        s + rb <= usize::MAX
    }
}

/// The selection that `replace_range_and_update_selection` stores.
pub open spec fn selection_after_replace(
    text: Seq<char>,
    start: usize,
    end: usize,
    rep: Seq<char>,
    preserve_old_cursor: bool,
    old_base: usize,
    old_extent: usize,
) -> SelectionState {
    let s = edit_start(text.len() as int, start as int) as usize;
    let e = edit_end(text.len() as int, start as int, end as int) as usize;
    let rb = utf8_len(rep);
    let new_len = replaced_text(text, start as int, end as int, rep).len() as usize;
    let delta = edit_delta(rb, (e - s) as usize);
    if preserve_old_cursor {
        SelectionState {
            base_offset: min(mapped_offset(old_base, s, e, delta, rb, new_len), new_len as int) as usize,
            extent_offset: min(mapped_offset(old_extent, s, e, delta, rb, new_len), new_len as int) as usize,
        }
    } else {
        SelectionState {
            base_offset: min(s + rb, new_len as int) as usize,
            extent_offset: min(s + rb, new_len as int) as usize,
        }
    }
}

fn map_offset(offset: usize, s: usize, e: usize, delta: isize, rep_bytes: usize, new_len: usize) -> (r: usize)
    requires
        s <= e,
        s <= new_len,
        mapped_offset_fits(offset, s, e, delta as int, new_len),
    ensures
        r == mapped_offset(offset, s, e, delta as int, rep_bytes, new_len),
{
    if offset <= s {
        offset
    } else if offset >= e {
        let mapped: isize = offset as isize + delta;
        let hi: isize = new_len as isize;
        if mapped < 0 {
            0
        } else if mapped > hi {
            hi as usize
        } else {
            mapped as usize
        }
    } else {
        let relative = offset - s;
        let mapped = s + relative.min(rep_bytes);
        mapped.min(new_len)
    }
}

/// The characters of line `line_idx` of the rope, without its trailing
/// CR LF or LF.
pub(crate) fn stripped_line_chars(rope: &Rope, line_idx: usize) -> (cs: Vec<char>)
    requires
        line_idx < line_count(rope_text(*rope)),
    ensures
        cs@ == stripped_line(rope_text(*rope), line_idx as int),
{
    let line = rope_line_string(rope, line_idx);
    let mut cs = str_to_chars(line.as_str());
    let n = newline_free_len(cs.as_slice());
    cs.truncate(n);
    cs
}

/// Line `line_idx` of the rope, without its trailing CR LF or LF.
pub(crate) fn stripped_line_string(rope: &Rope, line_idx: usize) -> (s: String)
    requires
        line_idx < line_count(rope_text(*rope)),
    ensures
        s@ == stripped_line(rope_text(*rope), line_idx as int),
{
    let cs = stripped_line_chars(rope, line_idx);
    assert(cs@.subrange(0, cs@.len() as int) == cs@);
    chars_to_string(cs.as_slice(), 0, cs.len())
}

/// The position at which the line that holds `offset` (clamped to the
/// text) ends, before its trailing CR LF or LF.
pub open spec fn line_end_at(text: Seq<char>, offset: int) -> int {
    let l = line_of(text, min(offset, text.len() as int)) as int;
    line_start(text, l + 1) - (line_text(text, l).len() - stripped_line(text, l).len())
}

/// The last valid line index, `line_count - 1`.
pub open spec fn last_line(text: Seq<char>) -> int {
    line_count(text) - 1
}

impl RopeBridge {
    /// The characters of the text.
    pub closed spec fn text(&self) -> Seq<char> {
        rope_text(self.rope)
    }

    /// The stored selection.
    pub closed spec fn sel(&self) -> SelectionState {
        self.selection
    }

    /// The rope that holds the text.
    pub(crate) fn rope(&self) -> (r: &Rope)
        ensures
            rope_text(*r) == self.text(),
    {
        &self.rope
    }

    /// A buffer that holds `initial_text`, with the selection collapsed at
    /// the start.
    pub fn create(initial_text: String) -> (b: Self)
        ensures
            b.text() == initial_text@,
            b.sel() == (SelectionState { base_offset: 0, extent_offset: 0 }),
    {
        RopeBridge {
            rope: rope_from_str(initial_text.as_str()),
            selection: SelectionState { base_offset: 0, extent_offset: 0 },
        }
    }

    /// The stored selection.
    pub fn selection(&self) -> (s: SelectionState)
        ensures
            s == self.sel(),
    {
        self.selection
    }

    /// Stores a selection, each end clamped to the length of the text.
    pub fn set_selection(&mut self, base_offset: usize, extent_offset: usize)
        ensures
            final(self).text() == old(self).text(),
            final(self).sel() == (SelectionState {
                base_offset: min(base_offset as int, old(self).text().len() as int) as usize,
                extent_offset: min(extent_offset as int, old(self).text().len() as int) as usize,
            }),
    {
        let len = rope_len_chars(&self.rope);
        let clamped_base = base_offset.min(len);
        let clamped_extent = extent_offset.min(len);
        self.selection = SelectionState { base_offset: clamped_base, extent_offset: clamped_extent };
    }

    /// Replaces the characters in `start..end` (clamped to the text) by
    /// `replacement`, then stores and returns a new selection.  With
    /// `preserve_old_cursor` the old selection `old_base..old_extent` is
    /// carried across the edit; otherwise the selection collapses right
    /// after the replacement, measured in bytes of its UTF-8 encoding.
    /// Both ends are clamped to the new text.
    pub fn replace_range_and_update_selection(
        &mut self,
        start: usize,
        end: usize,
        replacement: String,
        preserve_old_cursor: bool,
        old_base: usize,
        old_extent: usize,
    ) -> (r: SelectionState)
        requires
            replace_fits(
                old(self).text(),
                start,
                end,
                replacement@,
                preserve_old_cursor,
                old_base,
                old_extent,
            ),
        ensures
            final(self).text() == replaced_text(old(self).text(), start as int, end as int, replacement@),
            final(self).sel() == selection_after_replace(
                old(self).text(),
                start,
                end,
                replacement@,
                preserve_old_cursor,
                old_base,
                old_extent,
            ),
            r == final(self).sel(),
    {
        let ghost text = self.text();
        let len = rope_len_chars(&self.rope);
        let safe_start = start.min(len);
        let safe_end = end.max(safe_start).min(len);
        if safe_start < safe_end {
            rope_remove(&mut self.rope, safe_start, safe_end);
        }
        if !replacement.as_str().is_empty() {
            rope_insert(&mut self.rope, safe_start, replacement.as_str());
        }
        assert(self.text() == replaced_text(text, start as int, end as int, replacement@));
        let new_len = rope_len_chars(&self.rope);
        let rep_bytes = replacement.as_str().len();
        let new_selection = if preserve_old_cursor {
            let delta: isize = rep_bytes as isize - (safe_end - safe_start) as isize;
            let base = map_offset(old_base, safe_start, safe_end, delta, rep_bytes, new_len);
            let extent = map_offset(old_extent, safe_start, safe_end, delta, rep_bytes, new_len);
            SelectionState { base_offset: base, extent_offset: extent }
        } else {
            SelectionState {
                base_offset: safe_start + rep_bytes,
                extent_offset: safe_start + rep_bytes,
            }
        };
        self.selection = SelectionState {
            base_offset: new_selection.base_offset.min(new_len),
            extent_offset: new_selection.extent_offset.min(new_len),
        };
        self.selection
    }

    /// Inserts `text` in front of the character at `char_idx`.
    pub fn insert(&mut self, char_idx: usize, text: String)
        requires
            char_idx <= old(self).text().len(),
        ensures
            final(self).text() == inserted(old(self).text(), char_idx as int, text@),
            final(self).sel() == old(self).sel(),
    {
        rope_insert(&mut self.rope, char_idx, text.as_str());
    }

    /// Deletes the characters in `start..end`.
    pub fn remove(&mut self, start: usize, end: usize)
        requires
            start <= end <= old(self).text().len(),
        ensures
            final(self).text() == removed(old(self).text(), start as int, end as int),
            final(self).sel() == old(self).sel(),
    {
        rope_remove(&mut self.rope, start, end);
    }

    /// The characters in `start..end`, the range clamped to the text (an
    /// end before the start gives an empty string).
    pub fn slice(&self, start: usize, end: usize) -> (s: String)
        ensures
            ({
                let len = self.text().len() as int;
                let vs = min(start as int, len);
                let ve = min(if end < vs { vs } else { end as int }, len);
                s@ == self.text().subrange(vs, ve)
            }),
    {
        let len = rope_len_chars(&self.rope);
        let valid_start = start.min(len);
        let valid_end = end.max(valid_start).min(len);
        rope_slice_string(&self.rope, valid_start, valid_end)
    }

    /// The index of the line that holds `char_idx`, clamped to the text.
    pub fn char_to_line(&self, char_idx: usize) -> (l: usize)
        ensures
            l == line_of(self.text(), min(char_idx as int, self.text().len() as int)),
    {
        let len = rope_len_chars(&self.rope);
        let valid_idx = char_idx.min(len);
        rope_char_to_line(&self.rope, valid_idx)
    }

    /// Where line `line_idx` starts, the index clamped to the last line.
    pub fn line_to_char(&self, line_idx: usize) -> (c: usize)
        ensures
            c == line_start(self.text(), min(line_idx as int, last_line(self.text()))),
    {
        let count = rope_len_lines(&self.rope);
        let valid_idx = line_idx.min(count.saturating_sub(1));
        rope_line_to_char(&self.rope, valid_idx)
    }

    /// Line `line_idx`, the index clamped to the last line, without its
    /// trailing CR LF or LF.
    pub fn line(&self, line_idx: usize) -> (s: String)
        ensures
            s@ == stripped_line(self.text(), min(line_idx as int, last_line(self.text()))),
    {
        let count = rope_len_lines(&self.rope);
        let valid_idx = line_idx.min(count.saturating_sub(1));
        stripped_line_string(&self.rope, valid_idx)
    }

    /// The number of lines.
    pub fn len_lines(&self) -> (n: usize)
        ensures
            n == line_count(self.text()),
    {
        rope_len_lines(&self.rope)
    }

    /// The character at `position` as a string; empty past the end.
    pub fn char_at(&self, position: usize) -> (s: String)
        ensures
            position < self.text().len() ==> s@ == seq![self.text()[position as int]],
            position >= self.text().len() ==> s@ == Seq::<char>::empty(),
    {
        let len = rope_len_chars(&self.rope);
        if position >= len {
            return String::new();
        }
        let c = rope_char(&self.rope, position);
        let cs = vec![c];
        assert(cs@ == seq![c]);
        chars_to_string(cs.as_slice(), 0, 1)
    }

    /// An independent buffer with the same text and selection.
    pub fn copy(&self) -> (b: Self)
        ensures
            b.text() == self.text(),
            b.sel() == self.sel(),
    {
        RopeBridge { rope: rope_clone(&self.rope), selection: self.selection }
    }

    /// Every line, without its trailing CR LF or LF.
    pub fn cached_lines(&self) -> (lines: Vec<String>)
        ensures
            lines@.len() == line_count(self.text()),
            forall|i: int|
                0 <= i < lines@.len() ==> #[trigger] lines@[i]@ == stripped_line(self.text(), i),
    {
        let count = rope_len_lines(&self.rope);
        let mut lines: Vec<String> = Vec::with_capacity(count);
        let mut i: usize = 0;
        while i < count
            invariant
                count == line_count(self.text()),
                i <= count,
                lines@.len() == i,
                forall|j: int|
                    0 <= j < i ==> #[trigger] lines@[j]@ == stripped_line(self.text(), j),
            decreases count - i,
        {
            lines.push(stripped_line_string(&self.rope, i));
            i += 1;
        }
        lines
    }

    /// Lines `start_line..end_line`, both clamped to the line count (an end
    /// before the start gives none), without their trailing CR LF or LF.
    pub fn cached_lines_range(&self, start_line: usize, end_line: usize) -> (lines: Vec<String>)
        ensures
            ({
                let total = line_count(self.text()) as int;
                let s = min(start_line as int, total);
                let e = if min(end_line as int, total) < s { s } else { min(end_line as int, total) };
                &&& lines@.len() == e - s
                &&& forall|i: int|
                    0 <= i < lines@.len() ==> #[trigger] lines@[i]@ == stripped_line(self.text(), s + i)
            }),
    {
        let total = rope_len_lines(&self.rope);
        let start = start_line.min(total);
        let end = end_line.min(total).max(start);
        let mut lines: Vec<String> = Vec::with_capacity(end - start);
        let mut line_idx: usize = start;
        while line_idx < end
            invariant
                total == line_count(self.text()),
                start <= line_idx <= end <= total,
                lines@.len() == line_idx - start,
                forall|j: int|
                    0 <= j < lines@.len() ==> #[trigger] lines@[j]@ == stripped_line(self.text(), start + j),
            decreases end - line_idx,
        {
            lines.push(stripped_line_string(&self.rope, line_idx));
            line_idx += 1;
        }
        lines
    }

    /// Where the line that holds `offset` (clamped to the text) starts.
    pub fn find_line_start(&self, offset: usize) -> (c: usize)
        ensures
            c == line_start(self.text(), line_of(self.text(), min(offset as int, self.text().len() as int)) as int),
    {
        let line = self.char_to_line(offset);
        proof {
            lemma_line_start_of_line_of(self.text(), min(offset as int, self.text().len() as int));
        }
        self.line_to_char(line)
    }

    /// Where the line that holds `offset` (clamped to the text) ends,
    /// before its trailing CR LF or LF.
    pub fn find_line_end(&self, offset: usize) -> (c: usize)
        ensures
            c == line_end_at(self.text(), offset as int),
    {
        let ghost text = self.text();
        let len = rope_len_chars(&self.rope);
        let valid_offset = offset.min(len);
        let line = rope_char_to_line(&self.rope, valid_offset);
        proof {
            lemma_line_start_of_line_of(text, valid_offset as int);
            lemma_line_start_monotonic(text, line as int, line as int + 1);
        }
        let count = rope_len_lines(&self.rope);
        let next_line_start = if line + 1 < count {
            rope_line_to_char(&self.rope, line + 1)
        } else {
            len
        };
        let line_str = rope_line_string(&self.rope, line);
        let line_chars = str_to_chars(line_str.as_str());
        let line_len = line_chars.len();
        if line_len == 0 {
            return next_line_start;
        }
        let last = line_chars[line_len - 1];
        if last == '\n' {
            if line_len >= 2 && line_chars[line_len - 2] == '\r' {
                next_line_start.saturating_sub(2)
            } else {
                next_line_start.saturating_sub(1)
            }
        } else {
            next_line_start
        }
    }

    /// The direction held by most directed characters of the text
    /// (left-to-right on a tie or when there are none).
    pub fn primary_direction(&self) -> (d: TextDirection)
        ensures
            d == majority_direction(self.text()),
    {
        let len = rope_len_chars(&self.rope);
        let text = rope_to_string(&self.rope);
        assert(text@.len() == len);
        majority_direction_of(text.as_str())
    }

    /// `Mixed` when the text has characters of both directions, `Rtl` when
    /// it has only right-to-left ones, `Ltr` otherwise.
    pub fn text_direction(&self) -> (d: TextDirection)
        ensures
            d == overall_direction(self.text()),
    {
        let text = rope_to_string(&self.rope);
        overall_direction_of(text.as_str())
    }

    /// The direction runs of the characters `start..end`, the end clamped
    /// to the text.
    pub fn get_bidi_segments_in_range(&self, start: usize, end: usize) -> (segments: Vec<BiDiSegment>)
        ensures
            segments@ == bidi_segments_in_range(self.text(), start as int, end as int),
    {
        compute_bidi_segments(&self.rope, start, end)
    }

    /// The direction runs of line `line_index` (clamped to the last line),
    /// its line break included.
    pub fn get_bidi_segments_for_line(&self, line_index: usize) -> (segments: Vec<BiDiSegment>)
        ensures
            ({
                let l = min(line_index as int, last_line(self.text()));
                segments@ == bidi_segments_in_range(
                    self.text(),
                    line_start(self.text(), l),
                    line_start(self.text(), l + 1),
                )
            }),
    {
        let count = rope_len_lines(&self.rope);
        let valid_idx = line_index.min(count.saturating_sub(1));
        let start = rope_line_to_char(&self.rope, valid_idx);
        let len = rope_len_chars(&self.rope);
        let line_len = rope_line_len_chars(&self.rope, valid_idx);
        proof {
            lemma_line_start_monotonic(self.text(), valid_idx as int, valid_idx as int + 1);
        }
        assert(start + line_len <= len);
        let end = start + line_len;
        compute_bidi_segments(&self.rope, start, end)
    }

    /// The number of characters.
    pub fn len_chars(&self) -> (n: usize)
        ensures
            n == self.text().len(),
    {
        rope_len_chars(&self.rope)
    }

    /// All of the text.
    pub fn get_text(&self) -> (s: String)
        ensures
            s@ == self.text(),
    {
        rope_to_string(&self.rope)
    }
}

} // verus!
