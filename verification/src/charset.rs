//! Character classes and the shapes of text that the cleaning of a name
//! passes through, as functions on sequences of characters.

use vstd::prelude::*;

verus! {

/// A lowercase ASCII letter or an ASCII digit.
pub open spec fn is_alnum(c: char) -> bool {
    ('a' <= c && c <= 'z') || ('0' <= c && c <= '9')
}

/// A character that a clean name may hold.
pub open spec fn is_name_char(c: char) -> bool {
    is_alnum(c) || c == '_'
}

/// The characters with the Unicode property `White_Space`.
pub open spec fn is_white_space(c: char) -> bool {
    ||| ('\u{9}' <= c && c <= '\u{d}')
    ||| c == ' '
    ||| c == '\u{85}'
    ||| c == '\u{a0}'
    ||| c == '\u{1680}'
    ||| ('\u{2000}' <= c && c <= '\u{200a}')
    ||| c == '\u{2028}'
    ||| c == '\u{2029}'
    ||| c == '\u{202f}'
    ||| c == '\u{205f}'
    ||| c == '\u{3000}'
}

/// The lowercase form of an ASCII character.
pub open spec fn ascii_lower(c: char) -> char {
    if 'A' <= c && c <= 'Z' {
        ((c as u32) + 32) as char
    } else {
        c
    }
}

/// Every character lies below U+0080.
pub open spec fn is_ascii(s: Seq<char>) -> bool {
    forall|i: int| 0 <= i < s.len() ==> (#[trigger] s[i]) <= '\u{7f}'
}

/// Every character lies below U+007F, the last ASCII code.
pub open spec fn is_below_delete(s: Seq<char>) -> bool {
    forall|i: int| 0 <= i < s.len() ==> (#[trigger] s[i]) < '\u{7f}'
}

/// A text made of name characters only.
pub open spec fn is_identifier(s: Seq<char>) -> bool {
    &&& s.len() > 0
    &&& forall|i: int| 0 <= i < s.len() ==> is_name_char(#[trigger] s[i])
}

/// No two underscores stand side by side.
pub open spec fn has_single_underscores(s: Seq<char>) -> bool {
    forall|i: int| 0 <= i && i + 1 < s.len() ==> !(#[trigger] s[i] == '_' && s[i + 1] == '_')
}

/// The form that every cleaned name has: an identifier that neither starts
/// nor ends with an underscore and holds no run of underscores.
pub open spec fn is_clean_name(s: Seq<char>) -> bool {
    &&& is_identifier(s)
    &&& s[0] != '_'
    &&& s.last() != '_'
    &&& has_single_underscores(s)
}

/// `s` with every character lowered as ASCII.
pub open spec fn ascii_lowercase(s: Seq<char>) -> Seq<char> {
    Seq::new(s.len(), |i: int| ascii_lower(s[i]))
}

/// `s` with each maximal run of characters other than lowercase letters and
/// digits replaced by one underscore.
pub open spec fn collapsed(s: Seq<char>) -> Seq<char>
    decreases s.len(),
{
    if s.len() == 0 {
        s
    } else if is_alnum(s.last()) {
        collapsed(s.drop_last()).push(s.last())
    } else if s.len() >= 2 && !is_alnum(s[s.len() - 2]) {
        collapsed(s.drop_last())
    } else {
        collapsed(s.drop_last()).push('_')
    }
}

/// `s` without its leading characters that satisfy `drop`.
pub open spec fn stripped_front(s: Seq<char>, drop: spec_fn(char) -> bool) -> Seq<char>
    decreases s.len(),
{
    if s.len() > 0 && drop(s[0]) {
        stripped_front(s.drop_first(), drop)
    } else {
        s
    }
}

/// `s` without its trailing characters that satisfy `drop`.
pub open spec fn stripped_back(s: Seq<char>, drop: spec_fn(char) -> bool) -> Seq<char>
    decreases s.len(),
{
    if s.len() > 0 && drop(s.last()) {
        stripped_back(s.drop_last(), drop)
    } else {
        s
    }
}

/// `s` without the characters at either end that satisfy `drop`.
pub open spec fn stripped(s: Seq<char>, drop: spec_fn(char) -> bool) -> Seq<char> {
    stripped_back(stripped_front(s, drop), drop)
}

/// The test for white space.
pub open spec fn white_space() -> spec_fn(char) -> bool {
    |c: char| is_white_space(c)
}

/// The test for the character `c`.
pub open spec fn same_as(c: char) -> spec_fn(char) -> bool {
    |d: char| d == c
}

/// `s` without white space at either end.
pub open spec fn trimmed(s: Seq<char>) -> Seq<char> {
    stripped(s, white_space())
}

/// `s` without the character `c` at either end.
pub open spec fn stripped_of(s: Seq<char>, c: char) -> Seq<char> {
    stripped(s, same_as(c))
}

/// What collapsing leaves: name characters only, no run of underscores, and
/// an underscore at the end exactly where the text ended outside the
/// letters and digits.
pub proof fn lemma_collapsed_shape(s: Seq<char>)
    ensures
        forall|i: int| 0 <= i < collapsed(s).len() ==> is_name_char(#[trigger] collapsed(s)[i]),
        has_single_underscores(collapsed(s)),
        s.len() > 0 ==> collapsed(s).len() > 0,
        s.len() > 0 ==> (collapsed(s).last() == '_' <==> !is_alnum(s.last())),
    decreases s.len(),
{
    if s.len() > 0 {
        lemma_collapsed_shape(s.drop_last());
    }
}

/// Collapsing changes nothing in a text of name characters without a run of
/// underscores.
pub proof fn lemma_collapsed_fixed(s: Seq<char>)
    requires
        forall|i: int| 0 <= i < s.len() ==> is_name_char(#[trigger] s[i]),
        has_single_underscores(s),
    ensures
        collapsed(s) == s,
    decreases s.len(),
{
    if s.len() > 0 {
        lemma_collapsed_fixed(s.drop_last());
    }
}

/// Stripping the front cuts a prefix on which `drop` holds throughout, and
/// stops at a character on which it does not. Returns the length of the cut.
pub proof fn lemma_stripped_front(s: Seq<char>, drop: spec_fn(char) -> bool) -> (cut: int)
    ensures
        0 <= cut <= s.len(),
        stripped_front(s, drop) == s.subrange(cut, s.len() as int),
        forall|i: int| 0 <= i < cut ==> drop(#[trigger] s[i]),
        cut < s.len() ==> !drop(s[cut]),
    decreases s.len(),
{
    if s.len() > 0 && drop(s[0]) {
        let rest = s.drop_first();
        let inner = lemma_stripped_front(rest, drop);
        assert forall|i: int| 0 <= i < inner + 1 implies drop(#[trigger] s[i]) by {
            if i > 0 {
                assert(s[i] == rest[i - 1]);
            }
        }
        inner + 1
    } else {
        0
    }
}

/// Stripping the back cuts a suffix on which `drop` holds throughout, and
/// stops at a character on which it does not. Returns the length kept.
pub proof fn lemma_stripped_back(s: Seq<char>, drop: spec_fn(char) -> bool) -> (kept: int)
    ensures
        0 <= kept <= s.len(),
        stripped_back(s, drop) == s.subrange(0, kept),
        forall|i: int| kept <= i < s.len() ==> drop(#[trigger] s[i]),
        kept > 0 ==> !drop(s[kept - 1]),
    decreases s.len(),
{
    if s.len() > 0 && drop(s.last()) {
        let rest = s.drop_last();
        let inner = lemma_stripped_back(rest, drop);
        assert forall|i: int| inner <= i < s.len() implies drop(#[trigger] s[i]) by {
            if i < rest.len() {
                assert(s[i] == rest[i]);
            }
        }
        inner
    } else {
        s.len() as int
    }
}

/// Stripping both ends keeps one stretch of the text, which neither starts
/// nor ends with a character on which `drop` holds. Returns its bounds.
pub proof fn lemma_stripped(s: Seq<char>, drop: spec_fn(char) -> bool) -> (bounds: (int, int))
    ensures
        0 <= bounds.0 <= bounds.1 <= s.len(),
        stripped(s, drop) == s.subrange(bounds.0, bounds.1),
        bounds.0 < bounds.1 ==> !drop(s[bounds.0]) && !drop(s[bounds.1 - 1]),
        forall|i: int| 0 <= i < bounds.0 || bounds.1 <= i < s.len() ==> drop(#[trigger] s[i]),
{
    let cut = lemma_stripped_front(s, drop);
    let tail = s.subrange(cut, s.len() as int);
    let kept = lemma_stripped_back(tail, drop);
    assert forall|i: int| 0 <= i < cut || cut + kept <= i < s.len() implies drop(
        #[trigger] s[i],
    ) by {
        if i >= cut {
            assert(s[i] == tail[i - cut]);
        }
    }
    (cut, cut + kept)
}

/// Stripping changes nothing in a text whose two ends do not satisfy `drop`.
pub proof fn lemma_stripped_fixed(s: Seq<char>, drop: spec_fn(char) -> bool)
    requires
        s.len() > 0 ==> !drop(s[0]) && !drop(s.last()),
    ensures
        stripped(s, drop) == s,
{
}

/// The lowercase form of a text of name characters is the text itself.
pub proof fn lemma_lowercase_fixed(s: Seq<char>)
    requires
        forall|i: int| 0 <= i < s.len() ==> is_name_char(#[trigger] s[i]),
    ensures
        is_ascii(s),
        is_below_delete(s),
        ascii_lowercase(s) == s,
{
}

} // verus!
