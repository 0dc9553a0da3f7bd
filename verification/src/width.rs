//! Display widths of characters and texts, as `unicode-width` gives them.
use vstd::prelude::*;

verus! {

/// What `unicode_width::UnicodeWidthStr::width` returns for a text: the columns it
/// takes on a terminal.
pub uninterp spec fn str_width(s: Seq<char>) -> usize;

/// What `unicode_width::UnicodeWidthChar::width` returns for a character: the
/// columns it takes on a terminal, `None` for a control character.
pub uninterp spec fn char_width(c: char) -> Option<usize>;

/// Calls `unicode_width::UnicodeWidthStr::width`. The result depends on the text
/// alone; the empty text takes no column and an ellipsis takes one. Which number it is
/// for any other text is not stated.
#[verifier::external_body]
pub(crate) fn of_str(s: &str) -> (r: usize)
    ensures
        r == str_width(s@),
        s@.len() == 0 ==> r == 0,
        s@ == seq!['…'] ==> r == 1,
{
    unicode_width::UnicodeWidthStr::width(s)
}

/// Calls `unicode_width::UnicodeWidthChar::width`. The result depends on the
/// character alone; which number it is for a given character is not stated.
#[verifier::external_body]
pub(crate) fn of_char(c: char) -> (r: Option<usize>)
    ensures
        r == char_width(c),
{
    unicode_width::UnicodeWidthChar::width(c)
}

} // verus!
