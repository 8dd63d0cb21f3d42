//! Classification of characters by writing direction.

use vstd::prelude::*;

verus! {

/// Code points that start a right-to-left run: Hebrew, Arabic, Syriac,
/// Arabic Supplement, Thaana, NKo, Arabic Extended-A, and the explicit
/// right-to-left marks and embeddings.
pub open spec fn rtl_code_point(code: u32) -> bool {
    ||| 0x0600 <= code <= 0x06FF
    ||| 0x0750 <= code <= 0x077F
    ||| 0x08A0 <= code <= 0x08FF
    ||| 0x0590 <= code <= 0x05FF
    ||| 0x0700 <= code <= 0x074F
    ||| 0x0780 <= code <= 0x07BF
    ||| 0x07C0 <= code <= 0x07FF
    ||| code == 0x200F || code == 0x202B || code == 0x202E || code == 0x2067
}

/// Code points that start a left-to-right run: basic Latin letters,
/// Latin-1 and Latin Extended letters, Greek, Cyrillic, and the explicit
/// left-to-right marks and embeddings.
pub open spec fn ltr_code_point(code: u32) -> bool {
    ||| 0x0041 <= code <= 0x005A
    ||| 0x0061 <= code <= 0x007A
    ||| 0x00C0 <= code <= 0x00FF
    ||| 0x0100 <= code <= 0x017F
    ||| 0x0180 <= code <= 0x024F
    ||| 0x0370 <= code <= 0x03FF
    ||| 0x0400 <= code <= 0x04FF
    ||| code == 0x200E || code == 0x202A || code == 0x202D || code == 0x2066
}

#[verifier::opaque]
pub open spec fn spec_is_rtl(c: char) -> bool {
    rtl_code_point(c as u32)
}

#[verifier::opaque]
pub open spec fn spec_is_ltr(c: char) -> bool {
    ltr_code_point(c as u32)
}

/// Whether `c` belongs to a right-to-left script.
pub fn is_rtl_char(c: char) -> (r: bool)
    ensures
        r == spec_is_rtl(c),
{
    reveal(spec_is_rtl);
    let code = c as u32;
    (code >= 0x0600 && code <= 0x06FF) || (code >= 0x0750 && code <= 0x077F) || (code >= 0x08A0
        && code <= 0x08FF) || (code >= 0x0590 && code <= 0x05FF) || (code >= 0x0700 && code
        <= 0x074F) || (code >= 0x0780 && code <= 0x07BF) || (code >= 0x07C0 && code <= 0x07FF)
        || code == 0x200F || code == 0x202B || code == 0x202E || code == 0x2067
}

/// Whether `c` belongs to a left-to-right script.
pub fn is_ltr_char(c: char) -> (r: bool)
    ensures
        r == spec_is_ltr(c),
{
    reveal(spec_is_ltr);
    let code = c as u32;
    (code >= 0x0041 && code <= 0x005A) || (code >= 0x0061 && code <= 0x007A) || (code >= 0x00C0
        && code <= 0x00FF) || (code >= 0x0100 && code <= 0x017F) || (code >= 0x0180 && code
        <= 0x024F) || (code >= 0x0370 && code <= 0x03FF) || (code >= 0x0400 && code <= 0x04FF)
        || code == 0x200E || code == 0x202A || code == 0x202D || code == 0x2066
}

} // verus!
