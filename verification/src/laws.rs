//! Properties that relate the operations of the library to each other.

use crate::bidi::majority_direction;
use crate::lines::{
    break_ends, break_ends_at, lemma_break_ends_prefix, lemma_break_ends_sorted,
    lemma_line_start_monotonic, lemma_line_start_of_line_of, lemma_no_break_inside_line,
    line_count, line_of, line_start, line_text, strip_newline, stripped_line,
};
use crate::rope::{
    edit_end, edit_start, utf8_len, SelectionState, line_end_at, min, replace_fits, replaced_text, selection_after_replace,
    TextDirection,
};
use crate::text_rope::{inserted, removed};
use vstd::prelude::*;

verus! {

/// Removing the characters that an insertion put in gives back the text
/// as it was before the insertion.
pub proof fn law_remove_undoes_insert(text: Seq<char>, at: int, ins: Seq<char>)
    requires
        0 <= at <= text.len(),
    ensures
        removed(inserted(text, at, ins), at, at + ins.len()) == text,
{
    let after = inserted(text, at, ins);
    assert(after.take(at) == text.take(at));
    assert(after.skip(at + ins.len()) == text.skip(at));
    assert(text.take(at) + text.skip(at) == text);
}

/// Reading the range where text was inserted gives the inserted text.
pub proof fn law_slice_reads_insert(text: Seq<char>, at: int, ins: Seq<char>)
    requires
        0 <= at <= text.len(),
    ensures
        inserted(text, at, ins).subrange(at, at + ins.len()) == ins,
{
    assert(inserted(text, at, ins).subrange(at, at + ins.len()) =~= ins);
}

/// Replacing a range is removing it, once clamped, and inserting the
/// replacement where it began.
pub proof fn law_replace_is_remove_then_insert(text: Seq<char>, start: int, end: int, rep: Seq<char>)
    requires
        0 <= start,
        0 <= end,
    ensures
        ({
            let s = edit_start(text.len() as int, start);
            let e = edit_end(text.len() as int, start, end);
            &&& 0 <= s <= e <= text.len()
            &&& replaced_text(text, start, end, rep) == inserted(removed(text, s, e), s, rep)
        }),
{
    let s = edit_start(text.len() as int, start);
    let e = edit_end(text.len() as int, start, end);
    let r = removed(text, s, e);
    assert(r.take(s) == text.take(s));
    assert(r.skip(s) == text.skip(e));
}

/// Replacing the inserted text by the characters that a replacement
/// removed undoes the replacement.
pub proof fn law_replace_back_undoes_replace(text: Seq<char>, start: int, end: int, rep: Seq<char>)
    requires
        0 <= start <= end <= text.len(),
    ensures
        replaced_text(
            replaced_text(text, start, end, rep),
            start,
            start + rep.len(),
            text.subrange(start, end),
        ) == text,
{
    let after = replaced_text(text, start, end, rep);
    assert(edit_start(text.len() as int, start) == start);
    assert(edit_end(text.len() as int, start, end) == end);
    assert(after.len() == text.len() - (end - start) + rep.len());
    assert(edit_start(after.len() as int, start) == start);
    assert(edit_end(after.len() as int, start, start + rep.len()) == start + rep.len());
    assert(after.take(start) == text.take(start));
    assert(after.skip(start + rep.len()) == text.skip(end));
    assert(text.take(start) + text.subrange(start, end) + text.skip(end) =~= text);
}

/// Without keeping the old cursor, a replacement collapses the selection
/// right after the replacement: at the edit's start (clamped to the text)
/// plus the replacement's length in UTF-8 bytes, held to the new text.
/// Where the replaced range ended plays no part but through the new
/// length.
pub proof fn law_replace_collapses_selection_after_replacement(
    text: Seq<char>,
    start: usize,
    end: usize,
    rep: Seq<char>,
    old_base: usize,
    old_extent: usize,
)
    requires
        ({
            let len = text.len() as int;
            let s = if start <= len { start as int } else { len };
            let e = if end < s { s } else if end <= len { end as int } else { len };
            len - (e - s) + rep.len() <= usize::MAX
        }),
    ensures
        ({
            let len = text.len() as int;
            let s = if start <= len { start as int } else { len };
            let e = if end < s { s } else if end <= len { end as int } else { len };
            let new_len = len - (e - s) + rep.len();
            let at = if s + utf8_len(rep) <= new_len { s + utf8_len(rep) } else { new_len };
            selection_after_replace(text, start, end, rep, false, old_base, old_extent)
                == (SelectionState { base_offset: at as usize, extent_offset: at as usize })
        }),
{
}

/// Keeping the old cursor, an end of the old selection at or before the
/// edit's start stays where it was, and one past the edit's start and at
/// or after the replaced range moves by the replacement's length in bytes less the number of
/// characters removed, when that lands within the new text.
pub proof fn law_replace_keeps_offsets_outside_the_edit(
    text: Seq<char>,
    start: usize,
    end: usize,
    rep: Seq<char>,
    old_base: usize,
    old_extent: usize,
)
    requires
        replace_fits(text, start, end, rep, true, old_base, old_extent),
        ({
            let len = text.len() as int;
            let s = if start <= len { start as int } else { len };
            let e = if end < s { s } else if end <= len { end as int } else { len };
            len - (e - s) + rep.len() <= usize::MAX
        }),
    ensures
        ({
            let len = text.len() as int;
            let s = if start <= len { start as int } else { len };
            let e = if end < s { s } else if end <= len { end as int } else { len };
            let new_len = len - (e - s) + rep.len();
            let sel = selection_after_replace(text, start, end, rep, true, old_base, old_extent);
            &&& old_base <= s ==> sel.base_offset == old_base
            &&& old_extent <= s ==> sel.extent_offset == old_extent
            &&& s < old_base && e <= old_base <= isize::MAX && 0 <= old_base - (e - s) + utf8_len(rep) <= new_len
                ==> sel.base_offset == old_base - (e - s) + utf8_len(rep)
            &&& s < old_extent && e <= old_extent <= isize::MAX && 0 <= old_extent - (e - s) + utf8_len(rep) <= new_len
                ==> sel.extent_offset == old_extent - (e - s) + utf8_len(rep)
        }),
{
}

/// After a replacement the stored selection lies within the new text.
pub proof fn law_replace_selection_within_text(
    text: Seq<char>,
    start: usize,
    end: usize,
    rep: Seq<char>,
    preserve_old_cursor: bool,
    old_base: usize,
    old_extent: usize,
)
    requires
        replace_fits(text, start, end, rep, preserve_old_cursor, old_base, old_extent),
        replaced_text(text, start as int, end as int, rep).len() <= usize::MAX,
    ensures
        ({
            let sel = selection_after_replace(text, start, end, rep, preserve_old_cursor, old_base, old_extent);
            let new_len = replaced_text(text, start as int, end as int, rep).len();
            sel.base_offset <= new_len && sel.extent_offset <= new_len
        }),
{
}

/// The line that holds an offset starts at or before it (the offset
/// clamped to the text), and ends, before its line break, no earlier than
/// it starts.
pub proof fn law_line_start_before_end(text: Seq<char>, offset: int)
    requires
        0 <= offset,
    ensures
        ({
            let c = min(offset, text.len() as int);
            let start = line_start(text, line_of(text, c) as int);
            &&& start <= c
            &&& start <= line_end_at(text, offset)
            &&& line_end_at(text, offset) <= text.len()
        }),
{
    let c = min(offset, text.len() as int);
    let l = line_of(text, c) as int;
    lemma_line_start_of_line_of(text, c);
    lemma_line_start_monotonic(text, l, l + 1);
    let t = line_text(text, l);
    assert(strip_newline(t).len() <= t.len());
}

/// A line, once its trailing CR LF or LF is dropped, holds no LF.
pub proof fn law_stripped_line_has_no_line_feed(text: Seq<char>, l: int)
    requires
        0 <= l < line_count(text),
    ensures
        forall|i: int| 0 <= i < stripped_line(text, l).len() ==> #[trigger] stripped_line(text, l)[i] != '\n',
{
    lemma_line_start_monotonic(text, l, l + 1);
    let a = line_start(text, l);
    let b = line_start(text, l + 1);
    let t = line_text(text, l);
    let st = stripped_line(text, l);
    assert forall|i: int| 0 <= i < st.len() implies #[trigger] st[i] != '\n' by {
        assert(st[i] == t[i]);
        assert(t[i] == text[a + i]);
        if text[a + i] == '\n' {
            if a + i + 1 < b {
                assert(break_ends_at(text, a + i + 1));
                lemma_no_break_inside_line(text, l, a + i + 1);
            } else {
                assert(i == t.len() - 1);
            }
        }
    }
}

/// Line `l` starts on line `l`: the line of a line start is that line, so
/// looking up the start of the line of a line start gives it back.
pub proof fn law_line_of_line_start(text: Seq<char>, l: int)
    requires
        0 <= l < line_count(text),
    ensures
        line_of(text, line_start(text, l)) == l,
        line_start(text, line_of(text, line_start(text, l)) as int) == line_start(text, l),
{
    if l > 0 {
        let full = break_ends(text, text.len() as int);
        let p = full[l - 1];
        lemma_break_ends_sorted(text, text.len() as int);
        lemma_break_ends_prefix(text, p, text.len() as int);
        let part = break_ends(text, p);
        assert(part == break_ends(text, p - 1).push(p));
        let m = part.len() as int;
        assert(full.take(m)[m - 1] == part[m - 1]);
        assert(full[m - 1] == p);
        if m - 1 < l - 1 {
            assert(full[m - 1] < full[l - 1]);
        } else if m - 1 > l - 1 {
            assert(full[l - 1] < full[m - 1]);
        }
    }
}

/// The majority direction is never `Mixed`.
pub proof fn law_primary_direction_never_mixed(text: Seq<char>)
    ensures
        majority_direction(text) != TextDirection::Mixed,
{
}

} // verus!
