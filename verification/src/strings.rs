//! The string functions that the cleaning of a name calls, each with the
//! contract that the rest of the crate relies on.
//!
//! Nothing in this file is proved: every contract restates what the called
//! function documents.

use vstd::prelude::*;
use crate::charset::{ascii_lowercase, collapsed, is_ascii, is_below_delete, stripped_of, trimmed};
use crate::digits::decimal;

verus! {

/// What `deunicode::deunicode` returns for a text that holds a character
/// from U+007F on.
pub uninterp spec fn transliteration(text: Seq<char>) -> Seq<char>;

/// What `str::to_lowercase` returns for a text that is not ASCII.
pub uninterp spec fn unicode_lowercase(text: Seq<char>) -> Seq<char>;

/// The ASCII rendering of a text: the text itself where all of it lies below
/// U+007F, its transliteration otherwise.
pub open spec fn ascii_form(text: Seq<char>) -> Seq<char> {
    if is_below_delete(text) {
        text
    } else {
        transliteration(text)
    }
}

/// The lowercase form of a text: letter by letter where it is ASCII, by the
/// Unicode mapping otherwise.
pub open spec fn lowercased(text: Seq<char>) -> Seq<char> {
    if is_ascii(text) {
        ascii_lowercase(text)
    } else {
        unicode_lowercase(text)
    }
}

/// `deunicode::deunicode`: the result is ASCII, it depends on the text alone,
/// and a text whose bytes all lie below 0x7F comes back unchanged.
#[verifier::external_body]
pub(crate) fn transliterate(text: &str) -> (ascii: String)
    ensures
        ascii@ == (if is_below_delete(text@) {
            text@
        } else {
            transliteration(text@)
        }),
        is_ascii(ascii@),
{
    deunicode::deunicode(text)
}

/// `str::to_lowercase`: on ASCII text it lowers the letters `A` to `Z` and
/// keeps every other character; on other text it applies the Unicode
/// lowercase mapping, which depends on the text alone.
#[verifier::external_body]
pub(crate) fn lowercase(text: &str) -> (lower: String)
    ensures
        lower@ == (if is_ascii(text@) {
            ascii_lowercase(text@)
        } else {
            unicode_lowercase(text@)
        }),
{
    text.to_lowercase()
}

/// `regex::Regex::new` and `Regex::replace_all`, for the one pattern that
/// matches a run of characters other than `a` to `z` and `0` to `9`, and the
/// replacement `_`: matches are found from the left, each as long as it can
/// be, so every maximal run becomes one underscore and all else is kept.
#[verifier::external_body]
pub(crate) fn replace_all(pattern: &str, text: &str, with: &str) -> (replaced: String)
    requires
        pattern@ == "[^a-z0-9]+"@,
        with@ == "_"@,
    ensures
        replaced@ == collapsed(text@),
{
    let re = regex::Regex::new(pattern).unwrap();
    re.replace_all(text, with).into_owned()
}

/// `str::trim`: the text without the white space at its two ends.
#[verifier::external_body]
pub(crate) fn trim(text: &str) -> (inner: &str)
    ensures
        inner@ == trimmed(text@),
{
    text.trim()
}

/// `str::trim_matches` with a character as its pattern: the text without
/// the occurrences of that character at its two ends.
#[verifier::external_body]
pub(crate) fn trim_matches(text: &str, c: char) -> (inner: &str)
    ensures
        inner@ == stripped_of(text@, c),
{
    text.trim_matches(c)
}

/// `format!` of an unsigned integer: its decimal numeral.
#[verifier::external_body]
pub(crate) fn decimal_string(n: usize) -> (numeral: String)
    ensures
        numeral@ == decimal(n as nat),
{
    format!("{}", n)
}

} // verus!
