//! Display widths of text, from the `unicode-width` crate.

use vstd::prelude::*;
use unicode_width::{UnicodeWidthChar, UnicodeWidthStr};

verus! {

/// Columns that `unicode-width` gives a string (`UnicodeWidthStr::width`).
pub uninterp spec fn str_width(s: Seq<char>) -> usize;

/// Columns that `unicode-width` gives a character (`UnicodeWidthChar::width`),
/// `None` for a control character.
pub uninterp spec fn char_width(c: char) -> Option<usize>;

/// A printable ASCII character, `' '` to `'~'`.
pub open spec fn printable_ascii(c: char) -> bool {
    0x20 <= (c as int) && (c as int) < 0x7f
}

/// A character the front end draws that takes one column: printable ASCII,
/// the ellipsis `…` (U+2026) and the cursor bar `▎` (U+258E).
pub open spec fn narrow(c: char) -> bool {
    printable_ascii(c) || c == '…' || c == '▎'
}

/// Every character of `s` is narrow.
pub open spec fn all_narrow(s: Seq<char>) -> bool {
    forall|i: int| 0 <= i < s.len() ==> narrow(#[trigger] s[i])
}

/// `UnicodeWidthStr::width` of `s`. The crate's tables give one column to
/// each printable ASCII character and to `…` and `▎` (both East Asian
/// ambiguous, one column outside CJK contexts), and no multi-character rule
/// applies to them, so a string of such characters takes one column per
/// character; of any other string only its name is stated here.
#[verifier::external_body]
pub(crate) fn display_width(s: &str) -> (w: usize)
    ensures
        w == str_width(s@),
        all_narrow(s@) ==> w == s@.len(),
{
    UnicodeWidthStr::width(s)
}

/// `UnicodeWidthChar::width` of `c`. Below U+00A0 the crate gives one column
/// to printable ASCII and `None` to every other (control) character; `…`
/// and `▎` take one column; of other characters only the name is stated
/// here.
#[verifier::external_body]
pub(crate) fn char_display_width(c: char) -> (w: Option<usize>)
    ensures
        w == char_width(c),
        narrow(c) ==> w == Some(1usize),
        (c as int) < 0xa0 ==> w == (if printable_ascii(c) {
            Some(1usize)
        } else {
            None
        }),
{
    UnicodeWidthChar::width(c)
}

} // verus!
