//! The rope that stores the text, and the operations that the library
//! performs on it.  Each operation below calls the rope crate; its contract
//! is what that crate documents, stated over `rope_text`, the characters
//! that a rope holds.

use crate::lines::{line_count, line_of, line_start, line_text};
use ropey::Rope;
use vstd::prelude::*;

verus! {

/// The rope type of the `ropey` crate, held opaque.
#[verifier::external_type_specification]
#[verifier::external_body]
pub struct ExRope(Rope);

/// The characters that `rope` holds, in order.
pub uninterp spec fn rope_text(rope: Rope) -> Seq<char>;

/// `text` with `ins` put in front of the character at `at`.
pub open spec fn inserted(text: Seq<char>, at: int, ins: Seq<char>) -> Seq<char> {
    text.take(at) + ins + text.skip(at)
}

/// `text` without the characters in `start..end`.
pub open spec fn removed(text: Seq<char>, start: int, end: int) -> Seq<char> {
    text.take(start) + text.skip(end)
}

/// `Rope::from_str`: a rope that holds exactly the characters of `text`.
#[verifier::external_body]
pub(crate) fn rope_from_str(text: &str) -> (rope: Rope)
    ensures
        rope_text(rope) == text@,
{
    Rope::from_str(text)
}

/// `Rope::len_chars`: the number of characters.
#[verifier::external_body]
pub(crate) fn rope_len_chars(rope: &Rope) -> (n: usize)
    ensures
        n == rope_text(*rope).len(),
{
    rope.len_chars()
}

/// `Rope::len_lines`: the number of line breaks plus one.
#[verifier::external_body]
pub(crate) fn rope_len_lines(rope: &Rope) -> (n: usize)
    ensures
        n == line_count(rope_text(*rope)),
{
    rope.len_lines()
}

/// `Rope::insert`: puts `text` in front of the character at `char_idx`.
/// It panics past the end, which the precondition rules out.
#[verifier::external_body]
pub(crate) fn rope_insert(rope: &mut Rope, char_idx: usize, text: &str)
    requires
        char_idx <= rope_text(*old(rope)).len(),
    ensures
        rope_text(*final(rope)) == inserted(rope_text(*old(rope)), char_idx as int, text@),
{
    rope.insert(char_idx, text);
}

/// `Rope::remove`: deletes the characters in `start..end`.  It panics on a
/// reversed or out-of-bounds range, which the precondition rules out.
#[verifier::external_body]
pub(crate) fn rope_remove(rope: &mut Rope, start: usize, end: usize)
    requires
        start <= end <= rope_text(*old(rope)).len(),
    ensures
        rope_text(*final(rope)) == removed(rope_text(*old(rope)), start as int, end as int),
{
    rope.remove(start..end);
}

/// `Rope::char`: the character at `char_idx`.
#[verifier::external_body]
pub(crate) fn rope_char(rope: &Rope, char_idx: usize) -> (c: char)
    requires
        char_idx < rope_text(*rope).len(),
    ensures
        c == rope_text(*rope)[char_idx as int],
{
    rope.char(char_idx)
}

/// `Rope::slice` followed by `to_string`: the characters in `start..end`.
#[verifier::external_body]
pub(crate) fn rope_slice_string(rope: &Rope, start: usize, end: usize) -> (s: String)
    requires
        start <= end <= rope_text(*rope).len(),
    ensures
        s@ == rope_text(*rope).subrange(start as int, end as int),
{
    rope.slice(start..end).to_string()
}

/// `Rope::char_to_line`: the index of the line that holds `char_idx`.
#[verifier::external_body]
pub(crate) fn rope_char_to_line(rope: &Rope, char_idx: usize) -> (l: usize)
    requires
        char_idx <= rope_text(*rope).len(),
    ensures
        l == line_of(rope_text(*rope), char_idx as int),
{
    rope.char_to_line(char_idx)
}

/// `Rope::line_to_char`: where line `line_idx` starts (the text's length
/// for one past the last line).
#[verifier::external_body]
pub(crate) fn rope_line_to_char(rope: &Rope, line_idx: usize) -> (c: usize)
    requires
        line_idx <= line_count(rope_text(*rope)),
    ensures
        c == line_start(rope_text(*rope), line_idx as int),
{
    rope.line_to_char(line_idx)
}

/// `Rope::line` followed by `to_string`: the characters of line
/// `line_idx`, its line break included.
#[verifier::external_body]
pub(crate) fn rope_line_string(rope: &Rope, line_idx: usize) -> (s: String)
    requires
        line_idx < line_count(rope_text(*rope)),
    ensures
        s@ == line_text(rope_text(*rope), line_idx as int),
{
    rope.line(line_idx).to_string()
}

/// `Rope::line` followed by `len_chars`: the length of line `line_idx`,
/// its line break included.
#[verifier::external_body]
pub(crate) fn rope_line_len_chars(rope: &Rope, line_idx: usize) -> (n: usize)
    requires
        line_idx < line_count(rope_text(*rope)),
    ensures
        n == line_text(rope_text(*rope), line_idx as int).len(),
{
    rope.line(line_idx).len_chars()
}

/// `Rope::to_string`: all of the text.
#[verifier::external_body]
pub(crate) fn rope_to_string(rope: &Rope) -> (s: String)
    ensures
        s@ == rope_text(*rope),
{
    rope.to_string()
}

/// `Rope::clone`: a rope that holds the same text.
#[verifier::external_body]
pub(crate) fn rope_clone(rope: &Rope) -> (r: Rope)
    ensures
        rope_text(r) == rope_text(*rope),
{
    rope.clone()
}

} // verus!
