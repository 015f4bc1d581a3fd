//! Bringing a header row and the rows below it to one width.

use vstd::prelude::*;
use crate::charset::is_identifier;
use crate::headers::{
    all_clean, all_distinct, contains_name, lemma_members_fit, lemma_normalized_clean,
    lemma_normalized_distinct, normalized,
};
use crate::name::{
    fallback, lemma_numbered_injective, lemma_placeholder_clean, placeholder, placeholder_name,
};

verus! {

/// The greatest field count among a header row of `width` names and the
/// rows below it.
pub open spec fn max_width(width: nat, rows: Seq<Seq<Seq<char>>>) -> nat
    decreases rows.len(),
{
    if rows.len() == 0 {
        width
    } else {
        let before = max_width(width, rows.drop_last());
        if rows.last().len() > before {
            rows.last().len()
        } else {
            before
        }
    }
}

/// A header row grown to `width` names by made-up names. Their numbers are
/// tried in turn from `from` on, and a number whose name the row already
/// holds is passed over. The bound by the length of the row never decides
/// where every made-up name below `from` is in the row: see
/// `lemma_extended`.
pub open spec fn extended(names: Seq<Seq<char>>, width: nat, from: nat) -> Seq<Seq<char>>
    decreases width - names.len(), names.len() + 1 - from,
{
    if names.len() >= width {
        names
    } else if from <= names.len() && names.contains(placeholder(from)) {
        extended(names, width, from + 1)
    } else {
        extended(names.push(placeholder(from)), width, from + 1)
    }
}

/// A header row grown to `width` names, the numbers tried from 1 on.
pub open spec fn widened(names: Seq<Seq<char>>, width: nat) -> Seq<Seq<char>> {
    extended(names, width, 1)
}

/// A row filled up with empty fields on the right to `width` fields; a row
/// that is as wide or wider stays as it is.
pub open spec fn padded(row: Seq<Seq<char>>, width: nat) -> Seq<Seq<char>> {
    if row.len() >= width {
        row
    } else {
        row + Seq::new((width - row.len()) as nat, |i: int| Seq::<char>::empty())
    }
}

/// Every row filled up to `width` fields.
pub open spec fn padded_all(rows: Seq<Seq<Seq<char>>>, width: nat) -> Seq<Seq<Seq<char>>> {
    Seq::new(rows.len(), |i: int| padded(rows[i], width))
}

/// The greatest width is no less than the header row's or any row's, and
/// it is the width of one of them.
pub proof fn lemma_max_width(width: nat, rows: Seq<Seq<Seq<char>>>)
    ensures
        max_width(width, rows) >= width,
        forall|i: int| 0 <= i < rows.len() ==> max_width(width, rows) >= (#[trigger] rows[i]).len(),
        max_width(width, rows) == width || exists|i: int|
            0 <= i < rows.len() && max_width(width, rows) == (#[trigger] rows[i]).len(),
    decreases rows.len(),
{
    if rows.len() > 0 {
        let front = rows.drop_last();
        lemma_max_width(width, front);
        assert forall|i: int| 0 <= i < rows.len() implies max_width(width, rows) >= (
        #[trigger] rows[i]).len() by {
            if i < front.len() {
                assert(front[i] == rows[i]);
            }
        }
    }
}

/// Where the made-up names with the numbers 1 to `n` are all in a row, `n`
/// is at most the length of the row.
pub proof fn lemma_placeholders_fit(names: Seq<Seq<char>>, n: nat)
    requires
        forall|k: nat| 1 <= k <= n ==> names.contains(#[trigger] placeholder(k)),
    ensures
        n <= names.len(),
{
    let text = |k: nat| placeholder(k);
    assert forall|a: nat, b: nat| 1 <= a < b <= n implies #[trigger] text(a) != #[trigger] text(
        b,
    ) by {
        if placeholder(a) == placeholder(b) {
            lemma_numbered_injective(fallback(), a, b);
        }
    }
    lemma_members_fit(names, text, n);
}

/// What growing a row does, given that every made-up name below `from` is
/// in the row: the row becomes `width` long unless it was longer, its names
/// stay in front, clean names stay clean, and no name comes to occur twice.
pub proof fn lemma_extended(names: Seq<Seq<char>>, width: nat, from: nat)
    requires
        1 <= from,
        forall|k: nat| 1 <= k < from ==> names.contains(#[trigger] placeholder(k)),
    ensures
        extended(names, width, from).len() == if names.len() >= width {
            names.len()
        } else {
            width
        },
        extended(names, width, from).take(names.len() as int) == names,
        all_clean(names) ==> all_clean(extended(names, width, from)),
        all_distinct(names) ==> all_distinct(extended(names, width, from)),
    decreases width - names.len(), names.len() + 1 - from,
{
    if names.len() < width && names.contains(placeholder(from)) {
        lemma_placeholders_fit(names, from);
        lemma_extended(names, width, from + 1);
    } else if names.len() < width {
        let more = names.push(placeholder(from));
        assert forall|k: nat| 1 <= k < from + 1 implies more.contains(
            #[trigger] placeholder(k),
        ) by {
            if k < from {
                let p = choose|p: int| 0 <= p < names.len() && names[p] == placeholder(k);
                assert(more[p] == placeholder(k));
            } else {
                assert(more[names.len() as int] == placeholder(k));
            }
        }
        lemma_extended(more, width, from + 1);
        lemma_placeholder_clean(from);
    }
}

/// After a header row has been grown to the greatest width and the rows
/// have been filled up to it, the header row and every row have exactly
/// that many fields.
pub proof fn lemma_one_width(names: Seq<Seq<char>>, rows: Seq<Seq<Seq<char>>>)
    ensures
        widened(names, max_width(names.len(), rows)).len() == max_width(names.len(), rows),
        padded_all(rows, max_width(names.len(), rows)).len() == rows.len(),
        forall|i: int|
            0 <= i < rows.len() ==> (#[trigger] padded_all(
                rows,
                max_width(names.len(), rows),
            )[i]).len() == max_width(names.len(), rows),
{
    let width = max_width(names.len(), rows);
    lemma_max_width(names.len(), rows);
    lemma_extended(names, width, 1);
}

/// Growing a clean header row without repeats gives a clean header row
/// without repeats that starts with the old one.
pub proof fn lemma_widened(names: Seq<Seq<char>>, width: nat)
    ensures
        widened(names, width).len() >= names.len(),
        widened(names, width).len() >= width,
        widened(names, width).take(names.len() as int) == names,
        all_clean(names) ==> all_clean(widened(names, width)),
        all_distinct(names) ==> all_distinct(widened(names, width)),
{
    lemma_extended(names, width, 1);
}

/// A cleaned header row that is then grown is no shorter than the raw one,
/// and its names are identifiers of which none occurs twice.
pub proof fn lemma_widened_normalized(raw: Seq<Seq<char>>, width: nat)
    ensures
        widened(normalized(raw), width).len() >= raw.len(),
        all_clean(widened(normalized(raw), width)),
        all_distinct(widened(normalized(raw), width)),
        forall|i: int|
            0 <= i < widened(normalized(raw), width).len() ==> is_identifier(
                #[trigger] widened(normalized(raw), width)[i],
            ),
{
    lemma_normalized_clean(raw);
    lemma_normalized_distinct(raw);
    lemma_widened(normalized(raw), width);
}

/// Finds the greatest field count among a header row of `width` names and
/// the records.
pub fn widest(width: usize, records: &Vec<Vec<String>>) -> (max: usize)
    ensures
        max == max_width(width as nat, records.deep_view()),
        max >= width,
        forall|i: int| 0 <= i < records.len() ==> max >= (#[trigger] records[i]).len(),
{
    let ghost rows = records.deep_view();
    let mut max = width;
    let mut i: usize = 0;
    while i < records.len()
        invariant
            i <= records.len(),
            rows == records.deep_view(),
            max == max_width(width as nat, rows.take(i as int)),
        decreases records.len() - i,
    {
        if records[i].len() > max {
            max = records[i].len();
        }
        i += 1;
        assert(rows.take(i as int).drop_last() =~= rows.take(i - 1));
    }
    proof {
        assert(rows.take(i as int) =~= rows);
        lemma_max_width(width as nat, rows);
        assert forall|j: int| 0 <= j < records.len() implies max >= (
        #[trigger] records[j]).len() by {
            assert(rows[j].len() == records@[j].len());
        }
    }
    max
}

/// Grows a header row to `width` names: made-up names are appended, their
/// numbers rising from 1, and a number whose name the row already holds is
/// passed over. A row that is as long or longer stays as it is.
pub fn extend_headers(headers: &mut Vec<String>, width: usize)
    ensures
        final(headers).deep_view() == widened(old(headers).deep_view(), width as nat),
        final(headers).len() == if old(headers).len() >= width {
            old(headers).len()
        } else {
            width
        },
        final(headers).deep_view().take(old(headers).len() as int) == old(headers).deep_view(),
        all_clean(old(headers).deep_view()) ==> all_clean(final(headers).deep_view()),
        all_distinct(old(headers).deep_view()) ==> all_distinct(final(headers).deep_view()),
{
    let ghost target = widened(headers.deep_view(), width as nat);
    let mut counter: usize = 0;
    while headers.len() < width
        invariant
            forall|k: nat|
                1 <= k <= counter ==> headers.deep_view().contains(#[trigger] placeholder(k)),
            extended(headers.deep_view(), width as nat, (counter + 1) as nat) == target,
        decreases width - headers.len(),
    {
        proof {
            lemma_placeholders_fit(headers.deep_view(), counter as nat);
        }
        counter += 1;
        let mut name = placeholder_name(counter);
        while contains_name(headers, &name)
            invariant
                1 <= counter,
                headers.len() < width,
                name@ == placeholder(counter as nat),
                forall|k: nat|
                    1 <= k < counter ==> headers.deep_view().contains(#[trigger] placeholder(k)),
                extended(headers.deep_view(), width as nat, counter as nat) == target,
            decreases headers.len() + 1 - counter,
        {
            proof {
                lemma_placeholders_fit(headers.deep_view(), counter as nat);
            }
            counter += 1;
            name = placeholder_name(counter);
        }
        let ghost before = headers.deep_view();
        headers.push(name);
        proof {
            let after = headers.deep_view();
            assert(after =~= before.push(placeholder(counter as nat)));
            assert forall|k: nat| 1 <= k <= counter implies after.contains(
                #[trigger] placeholder(k),
            ) by {
                if k < counter {
                    let p = choose|p: int| 0 <= p < before.len() && before[p] == placeholder(k);
                    assert(after[p] == placeholder(k));
                } else {
                    assert(after[before.len() as int] == placeholder(k));
                }
            }
        }
    }
    proof {
        lemma_extended(old(headers).deep_view(), width as nat, 1);
    }
}

/// Lays out the fields of a record for output: the fields as they are,
/// followed by empty fields up to `width`. A record that is as wide or
/// wider is laid out unchanged.
pub fn pad_record<'a>(record: &'a Vec<String>, width: usize) -> (fields: Vec<&'a str>)
    ensures
        fields.deep_view() == padded(record.deep_view(), width as nat),
        record.len() <= width ==> fields.len() == width,
{
    let mut fields: Vec<&'a str> = Vec::new();
    let mut i: usize = 0;
    while i < record.len()
        invariant
            i <= record.len(),
            fields.len() == i,
            fields.deep_view() == record.deep_view().take(i as int),
        decreases record.len() - i,
    {
        fields.push(record[i].as_str());
        i += 1;
    }
    while fields.len() < width
        invariant
            record.len() <= fields.len(),
            record.len() < width ==> fields.len() <= width,
            record.len() >= width ==> fields.len() == record.len(),
            fields.deep_view() == record.deep_view() + Seq::new(
                (fields.len() - record.len()) as nat,
                |i: int| Seq::<char>::empty(),
            ),
        decreases width - fields.len(),
    {
        let ghost before = fields.deep_view();
        let blank: &'static str = "";
        proof {
            reveal_strlit("");
        }
        assert(blank@ =~= Seq::<char>::empty());
        fields.push(blank);
        assert(fields.deep_view() =~= before.push(Seq::<char>::empty()));
        assert(fields.deep_view() =~= record.deep_view() + Seq::new(
            (fields.len() - record.len()) as nat,
            |i: int| Seq::<char>::empty(),
        ));
    }
    fields
}

/// Brings a header row and the records below it to one width, the greatest
/// among them: the header row is grown by made-up names, and every record
/// is laid out with empty fields on its right.
pub fn reconcile<'a>(headers: &mut Vec<String>, records: &'a Vec<Vec<String>>) -> (rows: Vec<
    Vec<&'a str>,
>)
    ensures
        final(headers).deep_view() == widened(
            old(headers).deep_view(),
            max_width(old(headers).len() as nat, records.deep_view()),
        ),
        rows.deep_view() == padded_all(
            records.deep_view(),
            max_width(old(headers).len() as nat, records.deep_view()),
        ),
        final(headers).len() == max_width(old(headers).len() as nat, records.deep_view()),
        rows.len() == records.len(),
        forall|i: int| 0 <= i < rows.len() ==> (#[trigger] rows[i]).len() == final(headers).len(),
        final(headers).deep_view().take(old(headers).len() as int) == old(headers).deep_view(),
        all_clean(old(headers).deep_view()) ==> all_clean(final(headers).deep_view()),
        all_distinct(old(headers).deep_view()) ==> all_distinct(final(headers).deep_view()),
{
    let ghost given = records.deep_view();
    let width = widest(headers.len(), records);
    proof {
        lemma_max_width(headers.len() as nat, given);
    }
    extend_headers(headers, width);
    let mut rows: Vec<Vec<&'a str>> = Vec::new();
    let mut i: usize = 0;
    while i < records.len()
        invariant
            i <= records.len(),
            given == records.deep_view(),
            rows.len() == i,
            forall|j: int| 0 <= j < given.len() ==> width >= (#[trigger] given[j]).len(),
            forall|j: int| 0 <= j < i ==> (#[trigger] rows[j]).len() == width,
            rows.deep_view() == padded_all(given, width as nat).take(i as int),
        decreases records.len() - i,
    {
        let ghost before = rows.deep_view();
        let fields = pad_record(&records[i], width);
        rows.push(fields);
        i += 1;
        assert(rows.deep_view() =~= before.push(padded(given[i - 1], width as nat)));
    }
    rows
}

} // verus!
