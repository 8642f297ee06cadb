//! Character classification and string building, taken from `std` and from
//! the `unicode-width` crate.

use vstd::prelude::*;

verus! {

/// The column width that `unicode-width`'s tables give a character at or above
/// U+00A0 (the characters below U+00A0 are settled by the crate's own code, see
/// [`char_width`]).
pub uninterp spec fn table_width(c: char) -> usize;

/// Whether `c` has Unicode's `White_Space` property, the set of characters
/// that the Unicode Character Database lists in `PropList.txt`.
pub open spec fn white_space(c: char) -> bool {
    ||| '\u{9}' <= c <= '\u{d}'
    ||| c == ' '
    ||| c == '\u{85}'
    ||| c == '\u{a0}'
    ||| c == '\u{1680}'
    ||| '\u{2000}' <= c <= '\u{200a}'
    ||| c == '\u{2028}'
    ||| c == '\u{2029}'
    ||| c == '\u{202f}'
    ||| c == '\u{205f}'
    ||| c == '\u{3000}'
}

/// An ASCII letter.
pub open spec fn ascii_letter(c: char) -> bool {
    ('a' <= c <= 'z') || ('A' <= c <= 'Z')
}

/// Whether a character outside ASCII has Unicode's `Alphabetic` property.
pub uninterp spec fn is_unicode_alphabetic(c: char) -> bool;

/// Whether `c` has Unicode's `Alphabetic` property: among the ASCII
/// characters, exactly the letters.
pub open spec fn alphabetic(c: char) -> bool {
    if c <= '\x7f' {
        ascii_letter(c)
    } else {
        is_unicode_alphabetic(c)
    }
}

/// What `unicode_width::UnicodeWidthChar::width` returns for `c`.
///
/// The crate's source (`tables::single_char_width`) answers `None` for the
/// control characters U+0000..U+001F and U+007F..U+009F, `Some(1)` for
/// U+0020..U+007E, and otherwise looks the width up in its tables, which
/// [`table_width`] names without stating them.
#[verifier::external_body]
pub(crate) fn char_width(c: char) -> (r: Option<usize>)
    ensures
        c < ' ' ==> r is None,
        ' ' <= c < '\x7f' ==> r == Some(1usize),
        '\x7f' <= c < '\u{a0}' ==> r is None,
        '\u{a0}' <= c ==> r == Some(table_width(c)),
{
    unicode_width::UnicodeWidthChar::width(c)
}

/// `char::is_whitespace`: whether `c` has the `White_Space` property, which
/// `std`'s documentation gives as its definition; [`white_space`] writes the
/// property's characters out.
#[verifier::external_body]
pub(crate) fn char_is_whitespace(c: char) -> (r: bool)
    ensures
        r == white_space(c),
{
    c.is_whitespace()
}

/// `char::is_alphabetic`: whether `c` has the `Alphabetic` property, which
/// `std`'s documentation gives as its definition. Among the ASCII characters
/// the property holds of the letters alone; above ASCII it is named
/// ([`is_unicode_alphabetic`]) and not stated.
#[verifier::external_body]
pub(crate) fn char_is_alphabetic(c: char) -> (r: bool)
    ensures
        c <= '\x7f' ==> r == ascii_letter(c),
        '\x7f' < c ==> r == is_unicode_alphabetic(c),
{
    c.is_alphabetic()
}

/// `String::push`: appends `c` to the end of `s`.
#[verifier::external_body]
pub(crate) fn push_char(s: &mut String, c: char)
    ensures
        final(s)@ == old(s)@.push(c),
{
    s.push(c)
}

} // verus!
