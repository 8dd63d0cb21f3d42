//! What the writing direction of characters and texts is, read directly
//! from the character classes.

use crate::bidi::{char_direction, count_ltr, count_rtl, majority_direction};
use crate::direction::{ltr_code_point, rtl_code_point, spec_is_ltr, spec_is_rtl};
use crate::rope::TextDirection;
use vstd::prelude::*;

verus! {

/// A character takes part in direction runs according to its class: it is
/// right-to-left exactly when it belongs to a right-to-left script (the
/// Hebrew, Arabic, Syriac, Thaana, NKo blocks and the right-to-left
/// marks; the Hebrew and Arabic blocks among them), left-to-right exactly when it is not right-to-left and belongs
/// to a left-to-right script (the ASCII letters among them), and neutral
/// otherwise (digits and the space among them).
pub proof fn law_char_direction_by_code_point(c: char)
    ensures
        char_direction(c) == Some(TextDirection::Rtl) <==> rtl_code_point(c as u32),
        char_direction(c) == Some(TextDirection::Ltr) <==> !rtl_code_point(c as u32)
            && ltr_code_point(c as u32),
        char_direction(c) is None <==> !rtl_code_point(c as u32) && !ltr_code_point(c as u32),
        0x0590 <= c as u32 <= 0x06FF ==> char_direction(c) == Some(TextDirection::Rtl),
        (0x41 <= c as u32 <= 0x5A || 0x61 <= c as u32 <= 0x7A) ==> char_direction(c) == Some(
            TextDirection::Ltr,
        ),
        (0x30 <= c as u32 <= 0x39 || c == ' ') ==> char_direction(c) is None,
{
    reveal(spec_is_rtl);
    reveal(spec_is_ltr);
}

/// The number of right-to-left characters is the number of characters of
/// `s` that belong to a right-to-left script, and the number of
/// left-to-right characters is the number of the others that belong to a
/// left-to-right script.
pub proof fn law_direction_counts(s: Seq<char>)
    ensures
        count_rtl(s) == s.filter(|c: char| rtl_code_point(c as u32)).len(),
        count_ltr(s) == s.filter(|c: char| !rtl_code_point(c as u32) && ltr_code_point(c as u32)).len(),
    decreases s.len(),
{
    reveal(spec_is_rtl);
    reveal(spec_is_ltr);
    reveal(Seq::filter);
    if s.len() > 0 {
        law_direction_counts(s.drop_last());
    }
}

/// Neutral characters do not count: appending characters that belong to
/// neither direction leaves both counts, and so the majority direction,
/// unchanged.
pub proof fn law_neutral_characters_do_not_vote(s: Seq<char>, n: Seq<char>)
    requires
        forall|i: int| 0 <= i < n.len() ==> #[trigger] char_direction(n[i]) is None,
    ensures
        count_rtl(s + n) == count_rtl(s),
        count_ltr(s + n) == count_ltr(s),
        majority_direction(s + n) == majority_direction(s),
    decreases n.len(),
{
    if n.len() > 0 {
        let m = n.drop_last();
        assert forall|i: int| 0 <= i < m.len() implies #[trigger] char_direction(m[i]) is None by {
            assert(m[i] == n[i]);
        }
        law_neutral_characters_do_not_vote(s, m);
        assert((s + n).drop_last() == s + m);
        assert((s + n).last() == n[n.len() - 1]);
        assert(char_direction(n[n.len() - 1]) is None);
    }
}

/// The primary direction is right-to-left exactly when strictly more
/// characters are right-to-left than left-to-right, and left-to-right
/// otherwise; it is never mixed.
pub proof fn law_majority_is_the_larger_count(s: Seq<char>)
    ensures
        majority_direction(s) == TextDirection::Rtl <==> count_rtl(s) > count_ltr(s),
        majority_direction(s) == TextDirection::Ltr <==> count_rtl(s) <= count_ltr(s),
{
}

} // verus!
