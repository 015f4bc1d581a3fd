//! The cleaning of a header row: every name cleaned, and no name twice.

use vstd::prelude::*;
use crate::charset::{is_clean_name, is_identifier, lemma_stripped_fixed, trimmed, white_space};
use crate::name::{
    clean_name, cleaned, lemma_cleaned_clean, lemma_cleaned_fixed, lemma_numbered_clean,
    lemma_numbered_injective, lemma_numbered_longer, lemma_placeholder_clean, numbered,
    numbered_name, placeholder, placeholder_name,
};
use crate::strings::trim;

verus! {

/// The `k`-th spelling of a base name: the base itself for 1, the base with
/// the number `k` from 2 on.
pub open spec fn spelling(base: Seq<char>, k: nat) -> Seq<char> {
    if k <= 1 {
        base
    } else {
        numbered(base, k)
    }
}

/// The first number from `from` on whose spelling of `base` is not among
/// `taken`. The bound by the length of `taken` never decides where every
/// spelling below `from` is taken: see `lemma_first_free`.
pub open spec fn first_free(taken: Seq<Seq<char>>, base: Seq<char>, from: nat) -> nat
    decreases taken.len() + 1 - from,
{
    if from <= taken.len() && taken.contains(spelling(base, from)) {
        first_free(taken, base, from + 1)
    } else {
        from
    }
}

/// The first spelling of `base` that is not among `taken`.
pub open spec fn unique_among(taken: Seq<Seq<char>>, base: Seq<char>) -> Seq<char> {
    spelling(base, first_free(taken, base, 1))
}

/// A raw header that holds nothing but white space.
pub open spec fn is_blank(raw: Seq<char>) -> bool {
    trimmed(raw).len() == 0
}

/// How many of the raw headers are blank.
pub open spec fn blanks(raw: Seq<Seq<char>>) -> nat
    decreases raw.len(),
{
    if raw.len() == 0 {
        0
    } else if is_blank(raw.last()) {
        blanks(raw.drop_last()) + 1
    } else {
        blanks(raw.drop_last())
    }
}

/// The clean name of one raw header, before it is held against the names
/// to its left: a blank header stands as the made-up name with the number
/// one above the count of blank headers before it.
pub open spec fn base_name(raw: Seq<char>, blanks_before: nat) -> Seq<char> {
    if is_blank(raw) {
        cleaned(placeholder(blanks_before + 1))
    } else {
        cleaned(trimmed(raw))
    }
}

/// The clean header row of a raw one: from left to right, each header's base
/// name in its first spelling that no header to its left has taken.
pub open spec fn normalized(raw: Seq<Seq<char>>) -> Seq<Seq<char>>
    decreases raw.len(),
{
    if raw.len() == 0 {
        Seq::empty()
    } else {
        let before = normalized(raw.drop_last());
        before.push(unique_among(before, base_name(raw.last(), blanks(raw.drop_last()))))
    }
}

/// No name occurs twice.
pub open spec fn all_distinct(names: Seq<Seq<char>>) -> bool {
    forall|i: int, j: int| 0 <= i < j < names.len() ==> names[i] != names[j]
}

/// Every name is a clean name.
pub open spec fn all_clean(names: Seq<Seq<char>>) -> bool {
    forall|i: int| 0 <= i < names.len() ==> is_clean_name(#[trigger] names[i])
}

/// Two spellings of one base with different numbers differ.
pub proof fn lemma_spelling_injective(base: Seq<char>, a: nat, b: nat)
    requires
        1 <= a,
        1 <= b,
        spelling(base, a) == spelling(base, b),
    ensures
        a == b,
{
    lemma_numbered_longer(base, a);
    lemma_numbered_longer(base, b);
    if a >= 2 && b >= 2 {
        lemma_numbered_injective(base, a, b);
    }
}

/// Where `n` texts that differ from one another all occur in a sequence, the
/// sequence has at least `n` members.
pub proof fn lemma_members_fit(items: Seq<Seq<char>>, text: spec_fn(nat) -> Seq<char>, n: nat)
    requires
        forall|a: nat, b: nat| 1 <= a < b <= n ==> #[trigger] text(a) != #[trigger] text(b),
        forall|k: nat| 1 <= k <= n ==> items.contains(#[trigger] text(k)),
    ensures
        n <= items.len(),
    decreases n,
{
    if n > 0 {
        let at = choose|at: int| 0 <= at < items.len() && items[at] == text(n);
        let rest = items.remove(at);
        assert forall|k: nat| 1 <= k <= n - 1 implies rest.contains(#[trigger] text(k)) by {
            let p = choose|p: int| 0 <= p < items.len() && items[p] == text(k);
            if p < at {
                assert(rest[p] == items[p]);
            } else {
                assert(rest[p - 1] == items[p]);
            }
        }
        lemma_members_fit(rest, text, (n - 1) as nat);
    }
}

/// Where the spellings of `base` with the numbers 1 to `n` are all taken,
/// `n` is at most the count of taken names.
pub proof fn lemma_spellings_fit(taken: Seq<Seq<char>>, base: Seq<char>, n: nat)
    requires
        forall|k: nat| 1 <= k <= n ==> taken.contains(#[trigger] spelling(base, k)),
    ensures
        n <= taken.len(),
{
    let text = |k: nat| spelling(base, k);
    assert forall|a: nat, b: nat| 1 <= a < b <= n implies #[trigger] text(a) != #[trigger] text(
        b,
    ) by {
        if spelling(base, a) == spelling(base, b) {
            lemma_spelling_injective(base, a, b);
        }
    }
    lemma_members_fit(taken, text, n);
}

/// `first_free` is the least number from `from` on whose spelling is free,
/// given that every spelling below `from` is taken.
pub proof fn lemma_first_free(taken: Seq<Seq<char>>, base: Seq<char>, from: nat)
    requires
        1 <= from,
        forall|k: nat| 1 <= k < from ==> taken.contains(#[trigger] spelling(base, k)),
    ensures
        from <= first_free(taken, base, from) <= taken.len() + 1,
        !taken.contains(spelling(base, first_free(taken, base, from))),
        forall|k: nat|
            1 <= k < first_free(taken, base, from) ==> taken.contains(#[trigger] spelling(base, k)),
    decreases taken.len() + 1 - from,
{
    if taken.contains(spelling(base, from)) {
        lemma_spellings_fit(taken, base, from);
        lemma_first_free(taken, base, from + 1);
    } else {
        lemma_spellings_fit(taken, base, (from - 1) as nat);
    }
}

/// The number `k` is `first_free` from 1 where its spelling is free and all
/// spellings below it are taken.
pub proof fn lemma_first_free_is(taken: Seq<Seq<char>>, base: Seq<char>, k: nat)
    requires
        1 <= k,
        !taken.contains(spelling(base, k)),
        forall|j: nat| 1 <= j < k ==> taken.contains(#[trigger] spelling(base, j)),
    ensures
        first_free(taken, base, 1) == k,
{
    lemma_first_free(taken, base, 1);
}

/// The name chosen for a clean base is clean and not among the taken ones.
pub proof fn lemma_unique_among(taken: Seq<Seq<char>>, base: Seq<char>)
    requires
        is_clean_name(base),
    ensures
        is_clean_name(unique_among(taken, base)),
        !taken.contains(unique_among(taken, base)),
{
    lemma_first_free(taken, base, 1);
    lemma_numbered_clean(base, first_free(taken, base, 1));
}

/// The base name of every raw header is a clean name.
pub proof fn lemma_base_name_clean(raw: Seq<char>, blanks_before: nat)
    ensures
        is_clean_name(base_name(raw, blanks_before)),
        is_blank(raw) ==> base_name(raw, blanks_before) == placeholder(blanks_before + 1),
{
    lemma_placeholder_clean(blanks_before + 1);
    lemma_cleaned_clean(trimmed(raw));
}

/// A clean header row has as many names as the raw one, and every one of
/// them is an identifier, not empty and made of `a` to `z`, `0` to `9` and
/// `_`; more than that, it is a clean name.
pub proof fn lemma_normalized_clean(raw: Seq<Seq<char>>)
    ensures
        normalized(raw).len() == raw.len(),
        forall|i: int| 0 <= i < raw.len() ==> is_identifier(#[trigger] normalized(raw)[i]),
        all_clean(normalized(raw)),
    decreases raw.len(),
{
    if raw.len() > 0 {
        let before = normalized(raw.drop_last());
        lemma_normalized_clean(raw.drop_last());
        let base = base_name(raw.last(), blanks(raw.drop_last()));
        lemma_base_name_clean(raw.last(), blanks(raw.drop_last()));
        lemma_unique_among(before, base);
    }
}

/// No name occurs twice in a clean header row.
pub proof fn lemma_normalized_distinct(raw: Seq<Seq<char>>)
    ensures
        all_distinct(normalized(raw)),
    decreases raw.len(),
{
    if raw.len() > 0 {
        let before = normalized(raw.drop_last());
        lemma_normalized_distinct(raw.drop_last());
        let base = base_name(raw.last(), blanks(raw.drop_last()));
        lemma_base_name_clean(raw.last(), blanks(raw.drop_last()));
        lemma_unique_among(before, base);
    }
}

/// Cleaning a row of clean names of which none occurs twice gives the same
/// row back.
pub proof fn lemma_normalized_fixed(raw: Seq<Seq<char>>)
    requires
        all_clean(raw),
        all_distinct(raw),
    ensures
        normalized(raw) == raw,
        blanks(raw) == 0,
    decreases raw.len(),
{
    if raw.len() > 0 {
        let front = raw.drop_last();
        let last = raw.last();
        lemma_normalized_fixed(front);
        lemma_stripped_fixed(last, white_space());
        lemma_cleaned_fixed(last);
        lemma_first_free_is(front, last, 1);
    }
}

/// Cleaning a header row a second time changes nothing.
pub proof fn lemma_normalized_idempotent(raw: Seq<Seq<char>>)
    ensures
        normalized(normalized(raw)) == normalized(raw),
{
    lemma_normalized_clean(raw);
    lemma_normalized_distinct(raw);
    lemma_normalized_fixed(normalized(raw));
}

/// Tells whether `name` is among `names`.
pub fn contains_name(names: &Vec<String>, name: &String) -> (found: bool)
    ensures
        found == names.deep_view().contains(name@),
{
    let mut i: usize = 0;
    while i < names.len()
        invariant
            i <= names.len(),
            forall|j: int| 0 <= j < i ==> names.deep_view()[j] != name@,
        decreases names.len() - i,
    {
        if names[i] == *name {
            assert(names.deep_view()[i as int] == name@);
            return true;
        }
        i += 1;
    }
    false
}

/// Finds the first spelling of `base` that is not among `taken`: `base`
/// itself, or else `base` with the least number from 2 on that is free.
/// That number can be one above the count of taken names, so the count must
/// leave room for it.
pub fn unique_name(taken: &Vec<String>, base: &str) -> (name: String)
    requires
        taken.len() < usize::MAX,
    ensures
        name@ == unique_among(taken.deep_view(), base@),
        !taken.deep_view().contains(name@),
{
    let mut name = base.to_string();
    let mut counter: usize = 1;
    while contains_name(taken, &name)
        invariant
            1 <= counter,
            taken.len() < usize::MAX,
            name@ == spelling(base@, counter as nat),
            forall|k: nat|
                1 <= k < counter ==> taken.deep_view().contains(#[trigger] spelling(base@, k)),
        decreases taken.len() + 1 - counter,
    {
        proof {
            lemma_spellings_fit(taken.deep_view(), base@, counter as nat);
        }
        counter += 1;
        name = numbered_name(base, counter);
    }
    proof {
        lemma_first_free_is(taken.deep_view(), base@, counter as nat);
    }
    name
}

/// Cleans a header row. From left to right, each header is trimmed, a blank
/// one is replaced by a made-up name, the name is cleaned, and where a
/// header to its left already has that name it gets the least number from 2
/// on that makes it new.
pub fn clean_headers(headers: &[&str]) -> (names: Vec<String>)
    ensures
        names.deep_view() == normalized(headers.deep_view()),
        names.len() == headers.len(),
        all_clean(names.deep_view()),
        all_distinct(names.deep_view()),
{
    let ghost raw = headers.deep_view();
    let mut names: Vec<String> = Vec::new();
    let mut made_up: usize = 0;
    let mut i: usize = 0;
    while i < headers.len()
        invariant
            i <= headers.len(),
            raw == headers.deep_view(),
            names.len() == i,
            made_up <= i,
            made_up == blanks(raw.take(i as int)),
            names.deep_view() == normalized(raw.take(i as int)),
        decreases headers.len() - i,
    {
        let ghost seen = raw.take(i as int);
        let text = trim(headers[i]);
        let base = if text.is_empty() {
            made_up += 1;
            let made = placeholder_name(made_up);
            clean_name(made.as_str())
        } else {
            clean_name(text)
        };
        let name = unique_name(&names, base.as_str());
        names.push(name);
        i += 1;
        assert(raw.take(i as int).drop_last() =~= seen);
    }
    proof {
        assert(raw.take(i as int) =~= raw);
        lemma_normalized_clean(raw);
        lemma_normalized_distinct(raw);
    }
    names
}

} // verus!
