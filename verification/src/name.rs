//! The cleaning of one column name, and the names made up with a number.

use vstd::prelude::*;
use crate::charset::{
    ascii_lowercase, collapsed, is_clean_name, lemma_collapsed_fixed, lemma_collapsed_shape,
    lemma_lowercase_fixed, lemma_stripped, lemma_stripped_fixed, same_as, stripped_of,
};
use crate::digits::{decimal, lemma_decimal_digits, lemma_decimal_injective};
use crate::strings::{
    ascii_form, decimal_string, lowercase, lowercased, replace_all, transliterate, trim_matches,
};

verus! {

/// The name that stands for a text of which cleaning leaves nothing.
pub open spec fn fallback() -> Seq<char> {
    seq!['x']
}

/// What becomes of a lowered text: runs outside the letters and digits
/// collapse to one underscore each, underscores at the two ends go, and `x`
/// stands in if nothing is left.
pub open spec fn finished(lower: Seq<char>) -> Seq<char> {
    let core = stripped_of(collapsed(lower), '_');
    if core.len() == 0 {
        fallback()
    } else {
        core
    }
}

/// What becomes of a text that is lowered and finished.
pub open spec fn polished(text: Seq<char>) -> Seq<char> {
    finished(lowercased(text))
}

/// The clean form of a name: its ASCII rendering, lowered letter by letter
/// and finished.
pub open spec fn cleaned(name: Seq<char>) -> Seq<char> {
    finished(ascii_lowercase(ascii_form(name)))
}

/// `base` followed by an underscore and the numeral of `n`.
pub open spec fn numbered(base: Seq<char>, n: nat) -> Seq<char> {
    base.push('_') + decimal(n)
}

/// The made-up name with the number `n`: `x_` and the numeral.
pub open spec fn placeholder(n: nat) -> Seq<char> {
    numbered(fallback(), n)
}

/// Finishing always ends in a clean name.
pub proof fn lemma_finished_clean(lower: Seq<char>)
    ensures
        is_clean_name(finished(lower)),
{
    lemma_collapsed_shape(lower);
    lemma_stripped(collapsed(lower), same_as('_'));
}

/// Every name has a clean form that is a clean name.
pub proof fn lemma_cleaned_clean(name: Seq<char>)
    ensures
        is_clean_name(cleaned(name)),
        is_clean_name(polished(name)),
{
    lemma_finished_clean(ascii_lowercase(ascii_form(name)));
    lemma_finished_clean(lowercased(name));
}

/// The clean form of a clean name is the name itself.
pub proof fn lemma_cleaned_fixed(name: Seq<char>)
    requires
        is_clean_name(name),
    ensures
        polished(name) == name,
        cleaned(name) == name,
{
    lemma_lowercase_fixed(name);
    lemma_collapsed_fixed(name);
    lemma_stripped_fixed(name, same_as('_'));
}

/// A clean name with a number is a clean name.
pub proof fn lemma_numbered_clean(base: Seq<char>, n: nat)
    requires
        is_clean_name(base),
    ensures
        is_clean_name(numbered(base, n)),
{
    lemma_decimal_digits(n);
}

/// Every made-up name is clean.
pub proof fn lemma_placeholder_clean(n: nat)
    ensures
        is_clean_name(placeholder(n)),
        cleaned(placeholder(n)) == placeholder(n),
{
    lemma_numbered_clean(fallback(), n);
    lemma_cleaned_fixed(placeholder(n));
}

/// One base with two different numbers gives two different names.
pub proof fn lemma_numbered_injective(base: Seq<char>, a: nat, b: nat)
    requires
        numbered(base, a) == numbered(base, b),
    ensures
        a == b,
{
    let skip = base.len() as int + 1;
    assert(numbered(base, a).subrange(skip, numbered(base, a).len() as int) =~= decimal(a));
    assert(numbered(base, b).subrange(skip, numbered(base, b).len() as int) =~= decimal(b));
    lemma_decimal_injective(a, b);
}

/// A numbered name is longer than its base.
pub proof fn lemma_numbered_longer(base: Seq<char>, n: nat)
    ensures
        numbered(base, n).len() > base.len(),
        numbered(base, n) != base,
{
}

/// Polishes a text into a clean name: lowers it, puts one underscore for
/// each run of other characters than `a` to `z` and `0` to `9`, drops the
/// underscores at the two ends, and gives `x` if nothing is left.
pub fn polish(text: &str) -> (name: String)
    ensures
        name@ == polished(text@),
        is_clean_name(name@),
{
    let lower = lowercase(text);
    let joined = replace_all("[^a-z0-9]+", lower.as_str(), "_");
    let core = trim_matches(joined.as_str(), '_');
    proof {
        lemma_cleaned_clean(text@);
    }
    if core.is_empty() {
        proof {
            reveal_strlit("x");
        }
        "x".to_string()
    } else {
        core.to_string()
    }
}

/// Cleans one name: transliterated to ASCII, then polished.
pub fn clean_name(name: &str) -> (clean: String)
    ensures
        clean@ == cleaned(name@),
        is_clean_name(clean@),
{
    let ascii = transliterate(name);
    polish(ascii.as_str())
}

/// Builds `base`, an underscore and the numeral of `n`.
pub fn numbered_name(base: &str, n: usize) -> (name: String)
    ensures
        name@ == numbered(base@, n as nat),
{
    let mut name = base.to_string();
    name.append("_");
    let numeral = decimal_string(n);
    name.append(numeral.as_str());
    proof {
        reveal_strlit("_");
    }
    name
}

/// Builds the made-up name with the number `n`.
pub fn placeholder_name(n: usize) -> (name: String)
    ensures
        name@ == placeholder(n as nat),
        is_clean_name(name@),
{
    proof {
        reveal_strlit("x");
        lemma_placeholder_clean(n as nat);
    }
    assert("x"@ =~= fallback());
    numbered_name("x", n)
}

} // verus!
